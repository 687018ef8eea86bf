//! The path of an archive's BHD file, and of the BDT file next to it.

use vstd::prelude::*;
use vstd::std_specs::iter::IteratorSpec;
use vstd::string::StringSliceAdditionalSpecFns;
use vstd::utf8::{decode_utf8, encode_utf8, encode_utf8_decode_utf8};

use crate::bhd5::{has_bhd_suffix, spec_strip_5, strip_bhd_extension};
use crate::filesystem::path::{comps, components_exec, dot_dot, lower, make_lower, views};
use crate::filesystem::DefaultConfig;

verus! {

/// The path of a BHD file; its BDT lies next to it.
#[derive(Debug)]
pub struct BhdPath(pub String);

/// The index just after the last `/` of `p` (0 when there is none).
pub open spec fn name_start(p: Seq<char>) -> int
    decreases p.len(),
{
    if p.len() == 0 {
        0
    } else if p.last() == '/' {
        p.len() as int
    } else {
        name_start(p.drop_last())
    }
}

/// Searching back from `end`, the dot that starts the extension of the last
/// component of `p`: one that is not the component's first character.
pub open spec fn ext_dot(p: Seq<char>, end: int) -> Option<int>
    decreases end,
{
    if end <= 0 || end <= name_start(p) + 1 {
        None
    } else if p[end - 1] == '.' {
        Some(end - 1)
    } else {
        ext_dot(p, end - 1)
    }
}

/// `p` with the extension of its last component replaced by `bdt`, or
/// added when it has none; unchanged when that component is empty or `..`.
pub open spec fn bdt_path(p: Seq<char>) -> Seq<char> {
    let start = name_start(p);
    let name = p.subrange(start, p.len() as int);
    if name.len() == 0 || name == seq!['.', '.'] {
        p
    } else {
        match ext_dot(p, p.len() as int) {
            Some(d) => p.subrange(0, d + 1) + seq!['b', 'd', 't'],
            None => p + seq!['.', 'b', 'd', 't'],
        }
    }
}

/// The characters of `s`.
pub fn chars_of(s: &str) -> (r: Vec<char>)
    ensures
        r@ == s@,
{
    broadcast use vstd::string::axiom_spec_iter, vstd::string::next_postcondition;

    let mut out: Vec<char> = Vec::new();
    let mut it = s.chars();
    loop
        invariant
            it.obeys_prophetic_iter_laws(),
            out@ + it.remaining() == s@,
        ensures
            out@ == s@,
        decreases s@.len() - out@.len(),
    {
        let c = it.next();
        match c {
            Some(c) => {
                out.push(c);
                assert(out@ + it.remaining() =~= s@);
            },
            None => {
                assert(out@ =~= s@);
                break;
            },
        }
    }
    out
}

/// A string of the characters `cs`.
pub fn string_of(cs: &Vec<char>) -> (r: String)
    ensures
        r@ == cs@,
{
    let mut s = String::new();
    let mut i: usize = 0;
    while i < cs.len()
        invariant
            i <= cs@.len(),
            s@ == cs@.subrange(0, i as int),
        decreases cs@.len() - i,
    {
        s.push(cs[i]);
        i = i + 1;
        assert(s@ =~= cs@.subrange(0, i as int));
    }
    assert(cs@.subrange(0, cs@.len() as int) =~= cs@);
    s
}

fn find_name_start(p: &Vec<char>) -> (r: usize)
    ensures
        r == name_start(p@),
        r <= p@.len(),
{
    let mut i = p.len();
    assert(p@.subrange(0, i as int) =~= p@);
    while i > 0 && p[i - 1] != '/'
        invariant
            i <= p@.len(),
            name_start(p@) == name_start(p@.subrange(0, i as int)),
        decreases i,
    {
        assert(p@.subrange(0, i as int).drop_last() =~= p@.subrange(0, i - 1));
        i = i - 1;
    }
    proof {
        if i > 0 {
            assert(p@.subrange(0, i as int).last() == p@[i - 1]);
        }
        lemma_name_start_prefix(p@, i as int);
    }
    i
}

proof fn lemma_name_start_prefix(p: Seq<char>, i: int)
    requires
        0 <= i <= p.len(),
        name_start(p) == name_start(p.subrange(0, i)),
        i == 0 || p[i - 1] == '/',
    ensures
        name_start(p) == i,
{
    if i > 0 {
        assert(p.subrange(0, i).last() == p[i - 1]);
    }
}

impl BhdPath {
    pub fn as_bhd(&self) -> (r: &str)
        ensures
            r@ == self.0@,
    {
        self.0.as_str()
    }

    /// The path of the BDT next to it.
    pub fn to_bdt(&self) -> (r: String)
        ensures
            r@ == bdt_path(self.0@),
    {
        let mut p = chars_of(self.0.as_str());
        let start = find_name_start(&p);
        let len = p.len();
        if len - start == 0 || (len - start == 2 && p[start] == '.' && p[start + 1] == '.') {
            proof {
                if len - start == 2 {
                    assert(p@.subrange(start as int, len as int) =~= seq!['.', '.']);
                }
            }
            return string_of(&p);
        }
        proof {
            if len - start == 2 {
                assert(p@.subrange(start as int, len as int) != seq!['.', '.']) by {
                    if p@[start as int] != '.' {
                        assert(p@.subrange(start as int, len as int)[0] != '.');
                    } else {
                        assert(p@.subrange(start as int, len as int)[1] != '.');
                    }
                }
            }
        }
        let mut end = len;
        while end > start + 1 && p[end - 1] != '.'
            invariant
                start < len,
                start == name_start(p@),
                len == p@.len(),
                start < end <= len,
                ext_dot(p@, len as int) == ext_dot(p@, end as int),
            decreases end,
        {
            end = end - 1;
        }
        let ghost q = p@;
        if end > start + 1 {
            assert(ext_dot(q, end as int) == Some(end - 1));
            p.truncate(end);
            assert(p@ =~= q.subrange(0, end as int));
        } else {
            assert(ext_dot(q, end as int) is None);
            p.push('.');
        }
        p.push('b');
        p.push('d');
        p.push('t');
        proof {
            assert(q == self.0@);
            assert(p@ =~= bdt_path(q));
        }
        string_of(&p)
    }
}


/// The archives to mount, by name: each name (lowercased, its `.bhd` or
/// `.bhd5` extension removed) with the path of its BHD file, in the order
/// the names first came.
#[derive(Debug)]
pub struct ArchivePaths {
    pub paths: Vec<(String, BhdPath)>,
}

/// The last component of a `/` separated path, unless there is none or it
/// is `..`.
pub open spec fn file_name(p: Seq<char>) -> Option<Seq<char>> {
    let cs = comps::<DefaultConfig>(p);
    if cs.len() == 0 || cs.last() == dot_dot() {
        None
    } else {
        Some(cs.last())
    }
}

/// The archive name of a BHD file name: the name without its `.bhd` or
/// `.bhd5` extension (ASCII case ignored), lowercased.
pub open spec fn archive_key(name: Seq<char>) -> Option<Seq<char>> {
    let b = spec_strip_5(encode_utf8(name));
    if has_bhd_suffix(b) {
        Some(lower(decode_utf8(b.subrange(0, b.len() - 4))))
    } else {
        None
    }
}

/// The archive name of the file at `p`, if it is a BHD file.
pub open spec fn path_key(p: Seq<char>) -> Option<Seq<char>> {
    match file_name(p) {
        Some(n) => archive_key(n),
        None => None,
    }
}

/// The entries for the paths `ps`, one after the other: a path under a name
/// already there replaces that entry's path in place.
pub open spec fn archive_entries(ps: Seq<Seq<char>>) -> Seq<(Seq<char>, Seq<char>)>
    decreases ps.len(),
{
    if ps.len() == 0 {
        Seq::empty()
    } else {
        let r = archive_entries(ps.drop_last());
        let p = ps.last();
        match path_key(p) {
            None => r,
            Some(k) => if exists|i: int| 0 <= i < r.len() && #[trigger] r[i].0 == k {
                let i = choose|i: int| 0 <= i < r.len() && #[trigger] r[i].0 == k;
                r.update(i, (k, p))
            } else {
                r.push((k, p))
            },
        }
    }
}

pub open spec fn entry_view(e: (String, BhdPath)) -> (Seq<char>, Seq<char>) {
    (e.0@, e.1.0@)
}

fn archive_name(path: &str) -> (r: Option<String>)
    ensures
        match path_key(path@) {
            Some(k) => r matches Some(s) && s@ == k,
            None => r is None,
        },
{
    let cs = components_exec::<DefaultConfig>(&chars_of(path));
    let n = cs.len();
    if n == 0 {
        return None;
    }
    let last = &cs[n - 1];
    if last.len() == 2 && last[0] == '.' && last[1] == '.' {
        assert(last@ =~= dot_dot());
        return None;
    }
    proof {
        assert(views(cs@).last() == last@);
        if last@.len() == 2 {
            assert(last@ != dot_dot()) by {
                if last@[0] != '.' {
                    assert(last@[0] != dot_dot()[0]);
                } else {
                    assert(last@[1] != dot_dot()[1]);
                }
            }
        }
    }
    let name = string_of(last);
    match strip_bhd_extension(name.as_str()) {
        Some(stem) => {
            let mut key = chars_of(stem);
            proof {
                let b = spec_strip_5(encode_utf8(name@));
                assert(stem.spec_bytes() == encode_utf8(stem@));
                encode_utf8_decode_utf8(stem@);
                assert(decode_utf8(b.subrange(0, b.len() - 4)) == stem@);
            }
            make_lower(&mut key);
            Some(string_of(&key))
        },
        None => None,
    }
}

fn clone_str(s: &String) -> (r: String)
    ensures
        r@ == s@,
{
    s.clone()
}

impl ArchivePaths {
    /// The archives among `archive_paths`: those whose file name is a BHD
    /// file name, by archive name (see [`archive_entries`]).
    pub fn new(archive_paths: &Vec<String>) -> (r: ArchivePaths)
        ensures
            r.paths@.map_values(|e: (String, BhdPath)| entry_view(e)) == archive_entries(
                archive_paths@.map_values(|p: String| p@),
            ),
    {
        let ghost ps = archive_paths@.map_values(|p: String| p@);
        let mut out: Vec<(String, BhdPath)> = Vec::new();
        let mut k: usize = 0;
        proof {
            assert(ps.take(0) =~= Seq::<Seq<char>>::empty());
            assert(out@.map_values(|e: (String, BhdPath)| entry_view(e)) =~= Seq::<
                (Seq<char>, Seq<char>),
            >::empty());
        }
        while k < archive_paths.len()
            invariant
                k <= archive_paths@.len(),
                ps == archive_paths@.map_values(|p: String| p@),
                out@.map_values(|e: (String, BhdPath)| entry_view(e)) == archive_entries(
                    ps.take(k as int),
                ),
                forall|a: int, b: int|
                    0 <= a < b < out@.len() ==> #[trigger] out@[a].0@ != #[trigger] out@[b].0@,
            decreases archive_paths@.len() - k,
        {
            let path = &archive_paths[k];
            let ghost now = ps.take(k + 1);
            let ghost r0 = out@.map_values(|e: (String, BhdPath)| entry_view(e));
            proof {
                assert(now.drop_last() =~= ps.take(k as int));
                assert(now.last() == path@);
            }
            match archive_name(path.as_str()) {
                None => {},
                Some(key) => {
                    let mut i: usize = 0;
                    while i < out.len() && out[i].0 != key
                        invariant
                            i <= out@.len(),
                            forall|a: int| 0 <= a < i ==> #[trigger] out@[a].0@ != key@,
                        decreases out@.len() - i,
                    {
                        i = i + 1;
                    }
                    if i < out.len() {
                        let mut entry = (key, BhdPath(clone_str(path)));
                        out.set_and_swap(i, &mut entry);
                        proof {
                            assert(r0[i as int].0 == entry_view(out@[i as int]).0);
                            let c = choose|c: int| 0 <= c < r0.len() && #[trigger] r0[c].0 == out@[i as int].0@;
                            if c != i {
                                assert(r0[c].0 == out@[c].0@);
                            }
                            assert(out@.map_values(|e: (String, BhdPath)| entry_view(e)) =~= r0.update(
                                i as int,
                                (out@[i as int].0@, path@),
                            ));
                        }
                    } else {
                        proof {
                            assert(!exists|c: int| 0 <= c < r0.len() && #[trigger] r0[c].0 == key@) by {
                                if exists|c: int| 0 <= c < r0.len() && #[trigger] r0[c].0 == key@ {
                                    let c = choose|c: int| 0 <= c < r0.len() && #[trigger] r0[c].0 == key@;
                                    assert(out@[c].0@ == key@);
                                }
                            }
                        }
                        out.push((key, BhdPath(clone_str(path))));
                        proof {
                            assert(out@.map_values(|e: (String, BhdPath)| entry_view(e)) =~= r0.push(
                                (out@[k as int - k as int + i as int].0@, path@),
                            ));
                        }
                    }
                },
            }
            k = k + 1;
        }
        assert(ps.take(archive_paths@.len() as int) =~= ps);
        ArchivePaths { paths: out }
    }
}

} // verus!
