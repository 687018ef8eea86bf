//! Matching RSA keys to archives: the key files, grouped by the game they
//! belong to, and the keys worth trying for an archive.

use vstd::prelude::*;

use crate::archives::chars_of;
use crate::bhd5::byte_order::ByteOrder;
use crate::bhd5::format::{header_valid, Header, BHD5_HEADER_LEN};
use crate::rsa::{first_unreduced, processed, RsaKey};
use crate::filesystem::names::{
    compare_names, lemma_name_lt_asymmetric, lemma_name_lt_irreflexive, lemma_name_lt_transitive,
    name_lt, NameOrder,
};

verus! {

/// Whether `b` starts with a BHD5 header in either byte order.
pub open spec fn starts_with_header(b: Seq<u8>) -> bool {
    header_valid(b, ByteOrder::Little) || header_valid(b, ByteOrder::Big)
}

/// The first `len` bytes of `s`, or all of `s` when it is shorter.
pub open spec fn cut(s: Seq<u8>, len: int) -> Seq<u8> {
    if len <= s.len() {
        s.subrange(0, len)
    } else {
        s
    }
}

/// `b` decrypted with `key` and cut to the decrypted length, if `b` is
/// whole blocks, each below the modulus.
pub open spec fn decrypted_with(key: RsaKey, b: Seq<u8>) -> Option<Seq<u8>> {
    let il = key.modulus().len() as int;
    let count = (b.len() as int) / il;
    if (b.len() as int) % il != 0 || first_unreduced(b, key.modulus(), 0, count) is Some {
        None
    } else {
        Some(cut(processed(b, key.exponent(), key.modulus(), count), count * (il - 1)))
    }
}

/// Whether the start of an archive index, `bytes`, is a BHD5 header in
/// either byte order, once decrypted with `key` when there is one; a key
/// whose blocks decrypt to nothing, or bytes that do not decrypt to at
/// least a header, give `false`.
pub fn header_is_valid(key: Option<&RsaKey>, bytes: Vec<u8>) -> (r: bool)
    requires
        key matches Some(k) ==> k.wf(),
    ensures
        r == match key {
            None => starts_with_header(bytes@),
            Some(k) => k.modulus().len() > 1 && match decrypted_with(*k, bytes@) {
                Some(d) => ((bytes@.len() as int) / (k.modulus().len() as int)) * (k.modulus().len()
                    - 1) >= BHD5_HEADER_LEN && starts_with_header(d),
                None => false,
            },
        },
{
    match key {
        None => {
            let le = Header::try_ref_from_prefix(bytes.as_slice(), ByteOrder::Little).is_ok();
            let be = Header::try_ref_from_prefix(bytes.as_slice(), ByteOrder::Big).is_ok();
            assert(le == header_valid(bytes@, ByteOrder::Little));
            assert(be == header_valid(bytes@, ByteOrder::Big));
            le || be
        },
        Some(k) => {
            if k.out_block_len() == 0 {
                return false;
            }
            let mut b = bytes;
            let n0 = b.len();
            assert(b@ == bytes@ && n0 == bytes@.len());
            proof {
                let il = k.modulus().len() as int;
                let n = b@.len() as int;
                let count = n / il;
                assert(count * (il - 1) <= n) by (nonlinear_arith)
                    requires
                        il > 1,
                        n >= 0,
                        count == n / il,
                ;
            }
            match k.decrypt_blocks_in_place(&mut b) {
                Ok(len) => {
                    if len < BHD5_HEADER_LEN {
                        return false;
                    }
                    let ghost dec = b@;
                    let ghost il = k.modulus().len() as int;
                    let ghost count = (bytes@.len() as int) / il;
                    assert((bytes@.len() as int) % il == 0);
                    assert(first_unreduced(bytes@, k.modulus(), 0, count) is None);
                    assert(dec == processed(bytes@, k.exponent(), k.modulus(), count));
                    assert(count * (il - 1) <= bytes@.len()) by (nonlinear_arith)
                        requires
                            il > 1,
                            count == (bytes@.len() as int) / il,
                    ;
                    assert(0 <= count * (il - 1)) by (nonlinear_arith)
                        requires
                            il > 1,
                            count == (bytes@.len() as int) / il,
                    ;
                    assert(len == (count * (il - 1)) as usize);
                    assert(len as int == count * (il - 1));
                    b.truncate(len);
                    assert(b@ == cut(dec, len as int));
                    let le = Header::try_ref_from_prefix(b.as_slice(), ByteOrder::Little).is_ok();
                    let be = Header::try_ref_from_prefix(b.as_slice(), ByteOrder::Big).is_ok();
                    assert(le == header_valid(b@, ByteOrder::Little));
                    assert(be == header_valid(b@, ByteOrder::Big));
                    assert(decrypted_with(*k, bytes@) == Some(b@));
                    le || be
                },
                Err(_) => false,
            }
        },
    }
}

/// A key file: the archive it is for and its path.
#[derive(Debug)]
pub struct PemFile {
    pub name: String,
    pub path: String,
}

/// The key files of one game, in the order they were found.
#[derive(Debug)]
pub struct PemGroup {
    pub game: String,
    pub pems: Vec<PemFile>,
}

/// The key files of game `g` among `files`, in order, as (name, path).
pub open spec fn pems_of(files: Seq<(String, String, String)>, g: Seq<char>) -> Seq<
    (Seq<char>, Seq<char>),
>
    decreases files.len(),
{
    if files.len() == 0 {
        Seq::empty()
    } else {
        let rest = pems_of(files.drop_last(), g);
        let f = files.last();
        if f.1@ == g {
            rest.push((f.0@, f.2@))
        } else {
            rest
        }
    }
}

pub open spec fn group_pems(g: PemGroup) -> Seq<(Seq<char>, Seq<char>)> {
    Seq::new(g.pems@.len(), |j: int| (g.pems@[j].name@, g.pems@[j].path@))
}

/// Groups sorted strictly by game, each holding the key files of its game.
pub open spec fn grouped(groups: Seq<PemGroup>, files: Seq<(String, String, String)>) -> bool {
    &&& forall|a: int, b: int|
        0 <= a < b < groups.len() ==> name_lt(#[trigger] groups[a].game@, #[trigger] groups[b].game@)
    &&& forall|a: int| 0 <= a < groups.len() ==> group_pems(#[trigger] groups[a]) == pems_of(
        files,
        groups[a].game@,
    )
    &&& forall|a: int| 0 <= a < groups.len() ==> pems_of(files, #[trigger] groups[a].game@).len() > 0
    &&& forall|k: int|
        0 <= k < files.len() ==> exists|a: int|
            0 <= a < groups.len() && #[trigger] groups[a].game@ == (#[trigger] files[k]).1@
}

fn clone_string(s: &String) -> (r: String)
    ensures
        r@ == s@,
{
    s.clone()
}

/// The place of game `g` among the sorted groups.
fn find_game(groups: &Vec<PemGroup>, g: &Vec<char>) -> (r: Result<usize, usize>)
    requires
        forall|a: int, b: int|
            0 <= a < b < groups@.len() ==> name_lt(
                #[trigger] groups@[a].game@,
                #[trigger] groups@[b].game@,
            ),
    ensures
        match r {
            Ok(i) => i < groups@.len() && groups@[i as int].game@ == g@,
            Err(pos) => pos <= groups@.len() && (forall|a: int|
                0 <= a < pos ==> name_lt(#[trigger] groups@[a].game@, g@)) && (forall|a: int|
                pos <= a < groups@.len() ==> name_lt(g@, #[trigger] groups@[a].game@)),
        },
{
    let mut lo: usize = 0;
    let mut hi: usize = groups.len();
    while lo < hi
        invariant
            0 <= lo <= hi <= groups@.len(),
            forall|a: int, b: int|
                0 <= a < b < groups@.len() ==> name_lt(
                    #[trigger] groups@[a].game@,
                    #[trigger] groups@[b].game@,
                ),
            forall|a: int| 0 <= a < lo ==> name_lt(#[trigger] groups@[a].game@, g@),
            forall|a: int| hi <= a < groups@.len() ==> name_lt(g@, #[trigger] groups@[a].game@),
        decreases hi - lo,
    {
        let mid = lo + (hi - lo) / 2;
        let name = chars_of(groups[mid].game.as_str());
        match compare_names(&name, g) {
            NameOrder::Same => {
                return Ok(mid);
            },
            NameOrder::Before => {
                proof {
                    assert forall|a: int| 0 <= a < mid + 1 implies name_lt(
                        #[trigger] groups@[a].game@,
                        g@,
                    ) by {
                        if a < mid {
                            lemma_name_lt_transitive(groups@[a].game@, groups@[mid as int].game@, g@);
                        }
                    }
                }
                lo = mid + 1;
            },
            NameOrder::After => {
                proof {
                    assert forall|a: int| mid <= a < groups@.len() implies name_lt(
                        g@,
                        #[trigger] groups@[a].game@,
                    ) by {
                        if a > mid {
                            lemma_name_lt_transitive(g@, groups@[mid as int].game@, groups@[a].game@);
                        }
                    }
                }
                hi = mid;
            },
        }
    }
    Err(lo)
}

/// Groups key files by game (sorted by game), each group keeping the order
/// in which its files were found.
pub fn group_pem_paths(files: &Vec<(String, String, String)>) -> (r: Vec<PemGroup>)
    ensures
        grouped(r@, files@),
{
    let mut groups: Vec<PemGroup> = Vec::new();
    let mut k: usize = 0;
    while k < files.len()
        invariant
            k <= files@.len(),
            grouped(groups@, files@.take(k as int)),
        decreases files@.len() - k,
    {
        let ghost before = files@.take(k as int);
        let ghost now = files@.take(k + 1);
        let ghost f = files@[k as int];
        proof {
            assert(now.drop_last() =~= before);
            assert(now.last() == f);
        }
        let game = chars_of(files[k].1.as_str());
        let pem = PemFile { name: clone_string(&files[k].0), path: clone_string(&files[k].2) };
        let ghost g0 = groups@;
        match find_game(&groups, &game) {
            Ok(i) => {
                let mut group = PemGroup { game: String::new(), pems: Vec::new() };
                groups.set_and_swap(i, &mut group);
                let ghost pems0 = group.pems@;
                group.pems.push(pem);
                groups.set_and_swap(i, &mut group);
                proof {
                    assert(group_pems(groups@[i as int]) =~= group_pems(g0[i as int]).push(
                        (f.0@, f.2@),
                    ));
                    assert forall|a: int| 0 <= a < groups@.len() implies group_pems(
                        #[trigger] groups@[a],
                    ) == pems_of(now, groups@[a].game@) by {
                        if a != i {
                            assert(groups@[a] == g0[a]);
                            assert(groups@[a].game@ != f.1@) by {
                                if groups@[a].game@ == f.1@ {
                                    if a < i {
                                        assert(name_lt(g0[a].game@, g0[i as int].game@));
                                    } else {
                                        assert(name_lt(g0[i as int].game@, g0[a].game@));
                                    }
                                    lemma_name_lt_irreflexive(f.1@);
                                }
                            }
                        }
                    }
                    assert forall|a: int| 0 <= a < groups@.len() implies pems_of(
                        now,
                        #[trigger] groups@[a].game@,
                    ).len() > 0 by {
                        assert(groups@[a].game@ == g0[a].game@);
                        if groups@[a].game@ != f.1@ {
                            assert(pems_of(now, groups@[a].game@) == pems_of(before, g0[a].game@));
                        }
                    }
                    assert forall|m: int| 0 <= m < now.len() implies exists|a: int|
                        0 <= a < groups@.len() && #[trigger] groups@[a].game@ == (#[trigger] now[m]).1@ by {
                        if m < k {
                            assert(now[m] == before[m]);
                            let a = choose|a: int|
                                0 <= a < g0.len() && #[trigger] g0[a].game@ == (#[trigger] before[m]).1@;
                            assert(groups@[a].game@ == g0[a].game@);
                        } else {
                            assert(groups@[i as int].game@ == now[m].1@);
                        }
                    }
                }
            },
            Err(pos) => {
                let mut pems: Vec<PemFile> = Vec::new();
                pems.push(pem);
                let group = PemGroup { game: clone_string(&files[k].1), pems };
                groups.insert(pos, group);
                proof {
                    assert forall|a: int| 0 <= a < g0.len() implies #[trigger] g0[a].game@ != f.1@ by {
                        if g0[a].game@ == f.1@ {
                            lemma_name_lt_irreflexive(f.1@);
                        }
                    }
                    lemma_pems_absent(before, f.1@, g0);
                    assert(pems_of(before, f.1@) =~= Seq::<(Seq<char>, Seq<char>)>::empty());
                    assert(group_pems(groups@[pos as int]) =~= seq![(f.0@, f.2@)]);
                    assert forall|a: int, b: int|
                        0 <= a < b < groups@.len() implies name_lt(
                        #[trigger] groups@[a].game@,
                        #[trigger] groups@[b].game@,
                    ) by {
                        if a < pos && b > pos {
                            lemma_name_lt_transitive(g0[a].game@, f.1@, g0[b - 1].game@);
                        }
                    }
                    assert forall|a: int| 0 <= a < groups@.len() implies group_pems(
                        #[trigger] groups@[a],
                    ) == pems_of(now, groups@[a].game@) by {
                        if a != pos {
                            let a0 = if a < pos {
                                a
                            } else {
                                a - 1
                            };
                            assert(groups@[a] == g0[a0]);
                            assert(groups@[a].game@ != f.1@) by {
                                if groups@[a].game@ == f.1@ {
                                    lemma_name_lt_irreflexive(f.1@);
                                }
                            }
                        }
                    }
                    assert forall|a: int| 0 <= a < groups@.len() implies pems_of(
                        now,
                        #[trigger] groups@[a].game@,
                    ).len() > 0 by {
                        if a != pos {
                            let a0 = if a < pos {
                                a
                            } else {
                                a - 1
                            };
                            assert(groups@[a] == g0[a0]);
                            if groups@[a].game@ == f.1@ {
                                lemma_name_lt_irreflexive(f.1@);
                            }
                        }
                    }
                    assert forall|m: int| 0 <= m < now.len() implies exists|a: int|
                        0 <= a < groups@.len() && #[trigger] groups@[a].game@ == (#[trigger] now[m]).1@ by {
                        if m < k {
                            assert(now[m] == before[m]);
                            let a = choose|a: int|
                                0 <= a < g0.len() && #[trigger] g0[a].game@ == (#[trigger] before[m]).1@;
                            if a < pos {
                                assert(groups@[a] == g0[a]);
                            } else {
                                assert(groups@[a + 1] == g0[a]);
                            }
                        } else {
                            assert(groups@[pos as int].game@ == now[m].1@);
                        }
                    }
                }
            },
        }
        k = k + 1;
    }
    assert(files@.take(files@.len() as int) =~= files@);
    groups
}

/// A game no group has has no key files.
proof fn lemma_pems_absent(files: Seq<(String, String, String)>, g: Seq<char>, groups: Seq<PemGroup>)
    requires
        forall|k: int|
            0 <= k < files.len() ==> exists|a: int|
                0 <= a < groups.len() && #[trigger] groups[a].game@ == (#[trigger] files[k]).1@,
        forall|a: int| 0 <= a < groups.len() ==> #[trigger] groups[a].game@ != g,
    ensures
        pems_of(files, g).len() == 0,
    decreases files.len(),
{
    if files.len() > 0 {
        let last = files.len() - 1;
        assert(files.last() == files[last]);
        let a = choose|a: int|
            0 <= a < groups.len() && #[trigger] groups[a].game@ == (#[trigger] files[last]).1@;
        assert forall|k: int| 0 <= k < files.drop_last().len() implies exists|b: int|
            0 <= b < groups.len() && #[trigger] groups[b].game@ == (
            #[trigger] files.drop_last()[k]).1@ by {
            assert(files.drop_last()[k] == files[k]);
        }
        lemma_pems_absent(files.drop_last(), g, groups);
    }
}


/// The group of game `game`, when some group has it.
pub open spec fn game_slot(groups: Seq<PemGroup>, game: Option<Seq<char>>) -> Option<int> {
    match game {
        Some(g) => if exists|a: int| 0 <= a < groups.len() && #[trigger] groups[a].game@ == g {
            Some(choose|a: int| 0 <= a < groups.len() && #[trigger] groups[a].game@ == g)
        } else {
            None
        },
        None => None,
    }
}

/// The key files of group `a` for archive `name`, among its first `n`.
pub open spec fn in_group(groups: Seq<PemGroup>, a: int, name: Seq<char>, n: int) -> Seq<(usize, usize)>
    decreases n,
{
    if n <= 0 {
        Seq::empty()
    } else {
        let rest = in_group(groups, a, name, n - 1);
        if groups[a].pems@[n - 1].name@ == name {
            rest.push((a as usize, (n - 1) as usize))
        } else {
            rest
        }
    }
}

/// The key files for archive `name` in the first `n` groups.
pub open spec fn in_groups(groups: Seq<PemGroup>, name: Seq<char>, n: int) -> Seq<(usize, usize)>
    decreases n,
{
    if n <= 0 {
        Seq::empty()
    } else {
        in_groups(groups, name, n - 1) + in_group(groups, n - 1, name, groups[n - 1].pems@.len() as int)
    }
}

/// The key files to try for archive `name`, as (group, file) indices.
pub open spec fn candidates(groups: Seq<PemGroup>, game: Option<Seq<char>>, name: Seq<char>) -> Seq<
    (usize, usize),
> {
    match game_slot(groups, game) {
        Some(a) => in_group(groups, a, name, groups[a].pems@.len() as int),
        None => in_groups(groups, name, groups.len() as int),
    }
}

fn push_group_matches(groups: &Vec<PemGroup>, a: usize, name: &Vec<char>, out: &mut Vec<(usize, usize)>)
    requires
        a < groups@.len(),
    ensures
        final(out)@ == old(out)@ + in_group(groups@, a as int, name@, groups@[a as int].pems@.len() as int),
{
    let pems = &groups[a].pems;
    let ghost base = out@;
    let mut j: usize = 0;
    assert(base + in_group(groups@, a as int, name@, 0) =~= base);
    while j < pems.len()
        invariant
            a < groups@.len(),
            pems@ == groups@[a as int].pems@,
            j <= pems@.len(),
            out@ == base + in_group(groups@, a as int, name@, j as int),
        decreases pems@.len() - j,
    {
        let pem_name = chars_of(pems[j].name.as_str());
        if compare_names(&pem_name, name) == NameOrder::Same {
            out.push((a, j));
            assert(out@ =~= base + in_group(groups@, a as int, name@, j + 1));
        } else {
            assert(out@ =~= base + in_group(groups@, a as int, name@, j + 1));
        }
        j = j + 1;
    }
}

/// The key files to try for archive `name`: those of `game` when a group
/// has that game, else those of every group, group after group; in each
/// group in the order they were found.
pub fn key_candidates(groups: &Vec<PemGroup>, game: Option<&str>, name: &str) -> (r: Vec<
    (usize, usize),
>)
    requires
        forall|a: int, b: int|
            0 <= a < b < groups@.len() ==> name_lt(
                #[trigger] groups@[a].game@,
                #[trigger] groups@[b].game@,
            ),
    ensures
        r@ == candidates(
            groups@,
            match game {
                Some(g) => Some(g@),
                None => None,
            },
            name@,
        ),
{
    let name = chars_of(name);
    let mut out: Vec<(usize, usize)> = Vec::new();
    let slot = match game {
        Some(g) => match find_game(groups, &chars_of(g)) {
            Ok(i) => Some(i),
            Err(_) => None,
        },
        None => None,
    };
    let ghost gv = match game {
        Some(g) => Some(g@),
        None => None::<Seq<char>>,
    };
    match slot {
        Some(i) => {
            proof {
                let g = gv->0;
                assert(groups@[i as int].game@ == g);
                let c = choose|a: int| 0 <= a < groups@.len() && #[trigger] groups@[a].game@ == g;
                if c != i as int {
                    if c < i {
                        assert(name_lt(groups@[c].game@, groups@[i as int].game@));
                    } else {
                        assert(name_lt(groups@[i as int].game@, groups@[c].game@));
                    }
                    lemma_name_lt_irreflexive(g);
                }
                assert(game_slot(groups@, gv) == Some(i as int));
            }
            push_group_matches(groups, i, &name, &mut out);
            assert(out@ =~= in_group(groups@, i as int, name@, groups@[i as int].pems@.len() as int));
        },
        None => {
            proof {
                if gv is Some {
                    let g = gv->0;
                    assert forall|a: int| 0 <= a < groups@.len() implies #[trigger] groups@[a].game@ != g by {
                        if groups@[a].game@ == g {
                            lemma_name_lt_irreflexive(g);
                        }
                    }
                }
                assert(game_slot(groups@, gv) is None);
            }
            let mut a: usize = 0;
            while a < groups.len()
                invariant
                    a <= groups@.len(),
                    out@ == in_groups(groups@, name@, a as int),
                decreases groups@.len() - a,
            {
                push_group_matches(groups, a, &name, &mut out);
                a = a + 1;
            }
        },
    }
    out
}

} // verus!
