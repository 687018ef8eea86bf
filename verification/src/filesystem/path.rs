//! Path text: splitting at the configured separators, resolving `..`, and
//! ASCII lowercasing, all over the characters of the path.

use vstd::prelude::*;

use crate::filesystem::Config;

verus! {

/// The pieces of `rest` between separators, the first one starting with
/// `cur` (`str::split`).
pub open spec fn split_from<C: Config>(cur: Seq<char>, rest: Seq<char>) -> Seq<Seq<char>>
    decreases rest.len(),
{
    if rest.len() == 0 {
        seq![cur]
    } else if C::separator(rest[0]) {
        seq![cur] + split_from::<C>(Seq::empty(), rest.drop_first())
    } else {
        split_from::<C>(cur.push(rest[0]), rest.drop_first())
    }
}

/// All pieces of `s` between separators, empty ones included.
pub open spec fn pieces<C: Config>(s: Seq<char>) -> Seq<Seq<char>> {
    split_from::<C>(Seq::empty(), s)
}

pub open spec fn dot() -> Seq<char> {
    seq!['.']
}

pub open spec fn dot_dot() -> Seq<char> {
    seq!['.', '.']
}

/// A piece names something unless it is empty or `.`.
pub open spec fn is_comp(p: Seq<char>) -> bool {
    p.len() != 0 && p != dot()
}

/// The pieces that name something, in order.
pub open spec fn keep(ps: Seq<Seq<char>>) -> Seq<Seq<char>>
    decreases ps.len(),
{
    if ps.len() == 0 {
        ps
    } else if is_comp(ps.last()) {
        keep(ps.drop_last()).push(ps.last())
    } else {
        keep(ps.drop_last())
    }
}

/// The components of a path: its pieces without empty ones and `.`.
pub open spec fn comps<C: Config>(s: Seq<char>) -> Seq<Seq<char>> {
    keep(pieces::<C>(s))
}

/// The pieces after `..` has removed the piece before it, skipping empty
/// pieces and `.`.
pub open spec fn resolve(ps: Seq<Seq<char>>) -> Seq<Seq<char>>
    decreases ps.len(),
{
    if ps.len() == 0 {
        ps
    } else {
        let r = resolve(ps.drop_last());
        let p = ps.last();
        if !is_comp(p) {
            r
        } else if p == dot_dot() {
            if r.len() == 0 {
                r
            } else {
                r.drop_last()
            }
        } else {
            r.push(p)
        }
    }
}

/// The pieces joined with `/`.
pub open spec fn join(ps: Seq<Seq<char>>) -> Seq<char>
    decreases ps.len(),
{
    if ps.len() == 0 {
        Seq::empty()
    } else if ps.len() == 1 {
        ps[0]
    } else {
        join(ps.drop_last()).push('/') + ps.last()
    }
}

/// Whether `s` holds `..` anywhere.
pub open spec fn has_dot_dot(s: Seq<char>) -> bool {
    exists|i: int| 0 <= i && i + 1 < s.len() && s[i] == '.' && #[trigger] s[i + 1] == '.'
}

/// The path with `..` resolved: `.` for the empty path, the path itself
/// when it holds no `..`, else its resolved pieces joined with `/`.
pub open spec fn normalize<C: Config>(s: Seq<char>) -> Seq<char> {
    if s.len() == 0 {
        dot()
    } else if !has_dot_dot(s) {
        s
    } else {
        join(resolve(pieces::<C>(s)))
    }
}

pub open spec fn is_upper(c: char) -> bool {
    65 <= (c as u32) && (c as u32) <= 90
}

pub open spec fn lower_char(c: char) -> char {
    if is_upper(c) {
        ((c as u32) + 32) as char
    } else {
        c
    }
}

/// The text with ASCII capitals made small.
pub open spec fn lower(s: Seq<char>) -> Seq<char> {
    s.map_values(|c: char| lower_char(c))
}

pub open spec fn has_upper(s: Seq<char>) -> bool {
    exists|i: int| 0 <= i < s.len() && is_upper(#[trigger] s[i])
}


/// Lowercased text has no capitals.
pub proof fn lemma_lower_no_upper(s: Seq<char>)
    ensures
        !has_upper(lower(s)),
        !has_upper(s) ==> lower(s) == s,
{
    assert forall|i: int| 0 <= i < lower(s).len() implies !is_upper(#[trigger] lower(s)[i]) by {
        let c = s[i];
        if is_upper(c) {
            let l = ((c as u32) + 32) as char;
            assert(lower_char(c) == l);
            assert((l as u32) == (c as u32) + 32);
        }
    }
    if !has_upper(s) {
        assert(lower(s) =~= s);
    }
}

proof fn lemma_split_no_upper<C: Config>(cur: Seq<char>, rest: Seq<char>)
    requires
        !has_upper(cur),
        !has_upper(rest),
    ensures
        forall|k: int|
            0 <= k < split_from::<C>(cur, rest).len() ==> !has_upper(
                #[trigger] split_from::<C>(cur, rest)[k],
            ),
    decreases rest.len(),
{
    if rest.len() > 0 {
        let tail = rest.drop_first();
        assert(!has_upper(tail)) by {
            assert forall|i: int| 0 <= i < tail.len() implies !is_upper(#[trigger] tail[i]) by {
                assert(tail[i] == rest[i + 1]);
            }
        }
        assert(!is_upper(rest[0]));
        if C::separator(rest[0]) {
            lemma_split_no_upper::<C>(Seq::empty(), tail);
            let ps = split_from::<C>(cur, rest);
            assert(ps == seq![cur] + split_from::<C>(Seq::empty(), tail));
            assert forall|k: int| 0 <= k < ps.len() implies !has_upper(#[trigger] ps[k]) by {
                if k > 0 {
                    assert(ps[k] == split_from::<C>(Seq::empty(), tail)[k - 1]);
                } else {
                    assert(ps[0] == cur);
                }
            }
        } else {
            let c2 = cur.push(rest[0]);
            assert(!has_upper(c2)) by {
                assert forall|i: int| 0 <= i < c2.len() implies !is_upper(#[trigger] c2[i]) by {
                    if i < cur.len() {
                        assert(c2[i] == cur[i]);
                    }
                }
            }
            lemma_split_no_upper::<C>(c2, tail);
            assert(split_from::<C>(cur, rest) == split_from::<C>(c2, tail));
        }
    } else {
        assert(split_from::<C>(cur, rest)[0] == cur);
    }
}

proof fn lemma_keep_from(ps: Seq<Seq<char>>)
    ensures
        forall|k: int|
            0 <= k < keep(ps).len() ==> exists|j: int| 0 <= j < ps.len() && #[trigger] ps[j] == #[trigger] keep(ps)[k],
        forall|j: int|
            0 <= j < ps.len() && is_comp(#[trigger] ps[j]) ==> exists|k: int|
                0 <= k < keep(ps).len() && keep(ps)[k] == ps[j],
    decreases ps.len(),
{
    if ps.len() > 0 {
        let init = ps.drop_last();
        lemma_keep_from(init);
        let r = keep(ps);
        assert forall|k: int| 0 <= k < r.len() implies exists|j: int|
            0 <= j < ps.len() && #[trigger] ps[j] == #[trigger] r[k] by {
            if k < keep(init).len() {
                let j = choose|j: int| 0 <= j < init.len() && #[trigger] init[j] == #[trigger] keep(init)[k];
                assert(ps[j] == init[j]);
            } else {
                assert(ps[ps.len() - 1] == r[k]);
            }
        }
        assert forall|j: int| 0 <= j < ps.len() && is_comp(#[trigger] ps[j]) implies exists|k: int|
            0 <= k < r.len() && r[k] == ps[j] by {
            if j < init.len() {
                assert(init[j] == ps[j]);
                let k = choose|k: int| 0 <= k < keep(init).len() && keep(init)[k] == init[j];
                assert(r[k] == keep(init)[k]);
            } else {
                assert(r[keep(init).len() as int] == ps.last());
            }
        }
    }
}

/// The components of text without capitals have none.
pub proof fn lemma_comps_no_upper<C: Config>(s: Seq<char>)
    requires
        !has_upper(s),
    ensures
        forall|k: int| 0 <= k < comps::<C>(s).len() ==> !has_upper(#[trigger] comps::<C>(s)[k]),
{
    lemma_split_no_upper::<C>(Seq::empty(), s);
    lemma_keep_from(pieces::<C>(s));
    assert forall|k: int| 0 <= k < comps::<C>(s).len() implies !has_upper(#[trigger] comps::<C>(s)[k]) by {
        let j = choose|j: int|
            0 <= j < pieces::<C>(s).len() && #[trigger] pieces::<C>(s)[j] == #[trigger] comps::<C>(s)[k];
    }
}

proof fn lemma_split_upper<C: Config>(cur: Seq<char>, rest: Seq<char>)
    requires
        has_upper(cur) || has_upper(rest),
        forall|c: char| is_upper(c) ==> !#[trigger] C::separator(c),
    ensures
        exists|k: int|
            0 <= k < split_from::<C>(cur, rest).len() && has_upper(
                #[trigger] split_from::<C>(cur, rest)[k],
            ),
    decreases rest.len(),
{
    let ps = split_from::<C>(cur, rest);
    if rest.len() == 0 {
        assert(ps[0] == cur);
    } else {
        let tail = rest.drop_first();
        let upper_in_tail = exists|i: int| 0 <= i < tail.len() && is_upper(#[trigger] tail[i]);
        if has_upper(rest) && !is_upper(rest[0]) {
            let i = choose|i: int| 0 <= i < rest.len() && is_upper(#[trigger] rest[i]);
            assert(tail[i - 1] == rest[i]);
        }
        if C::separator(rest[0]) {
            assert(!is_upper(rest[0]));
            if has_upper(cur) {
                assert(ps[0] == cur);
            } else {
                assert(has_upper(tail));
                lemma_split_upper::<C>(Seq::empty(), tail);
                let k = choose|k: int|
                    0 <= k < split_from::<C>(Seq::empty(), tail).len() && has_upper(
                        #[trigger] split_from::<C>(Seq::empty(), tail)[k],
                    );
                assert(ps[k + 1] == split_from::<C>(Seq::empty(), tail)[k]);
            }
        } else {
            let c2 = cur.push(rest[0]);
            if has_upper(cur) {
                let i = choose|i: int| 0 <= i < cur.len() && is_upper(#[trigger] cur[i]);
                assert(c2[i] == cur[i]);
            } else if is_upper(rest[0]) {
                assert(c2[cur.len() as int] == rest[0]);
            }
            lemma_split_upper::<C>(c2, tail);
        }
    }
}

/// A capital that is no separator lies in some component.
pub proof fn lemma_upper_in_comps<C: Config>(s: Seq<char>)
    requires
        has_upper(s),
        forall|c: char| is_upper(c) ==> !#[trigger] C::separator(c),
    ensures
        exists|k: int| 0 <= k < comps::<C>(s).len() && has_upper(#[trigger] comps::<C>(s)[k]),
{
    lemma_split_upper::<C>(Seq::empty(), s);
    let ps = pieces::<C>(s);
    let j = choose|j: int| 0 <= j < ps.len() && has_upper(#[trigger] ps[j]);
    let i = choose|i: int| 0 <= i < ps[j].len() && is_upper(#[trigger] ps[j][i]);
    assert(ps[j].len() != 0);
    assert(ps[j] != dot()) by {
        if ps[j] == dot() {
            assert(ps[j][i] == '.');
        }
    }
    lemma_keep_from(ps);
    let k = choose|k: int| 0 <= k < keep(ps).len() && keep(ps)[k] == ps[j];
    assert(has_upper(comps::<C>(s)[k]));
}

pub open spec fn views(v: Seq<Vec<char>>) -> Seq<Seq<char>> {
    Seq::new(v.len(), |i: int| v[i]@)
}

pub fn lower_char_exec(c: char) -> (r: char)
    ensures
        r == lower_char(c),
{
    let v = c as u32;
    if 65 <= v && v <= 90 {
        ((v as u8) + 32) as char
    } else {
        c
    }
}

/// Lowercases in place; says whether anything changed.
pub fn make_lower(s: &mut Vec<char>) -> (changed: bool)
    ensures
        final(s)@ == lower(old(s)@),
        changed == has_upper(old(s)@),
{
    let ghost s0 = s@;
    let mut changed = false;
    let mut i: usize = 0;
    while i < s.len()
        invariant
            i <= s@.len(),
            s@.len() == s0.len(),
            forall|k: int| 0 <= k < i ==> s@[k] == lower_char(s0[k]),
            forall|k: int| i <= k < s@.len() ==> s@[k] == s0[k],
            changed <==> exists|k: int| 0 <= k < i && is_upper(#[trigger] s0[k]),
        decreases s@.len() - i,
    {
        let c = s[i];
        let v = c as u32;
        let up = 65 <= v && v <= 90;
        proof {
            assert(c == s0[i as int]);
            assert(up == is_upper(s0[i as int]));
        }
        if up {
            changed = true;
        }
        let l = lower_char_exec(c);
        s.set(i, l);
        proof {
            if up {
                assert(is_upper(s0[i as int]));
            } else {
                assert forall|k: int| 0 <= k < i + 1 && is_upper(#[trigger] s0[k]) implies 0 <= k
                    < i by {
                    if k == i {
                        assert(!is_upper(s0[i as int]));
                    }
                }
            }
        }
        i = i + 1;
    }
    assert(s@ =~= lower(s0));
    changed
}

/// The pieces of `s` between separators.
pub fn split_pieces<C: Config>(s: &Vec<char>) -> (r: Vec<Vec<char>>)
    ensures
        views(r@) == pieces::<C>(s@),
{
    let mut done: Vec<Vec<char>> = Vec::new();
    let mut cur: Vec<char> = Vec::new();
    let mut i: usize = 0;
    proof {
        assert(s@.skip(0) =~= s@);
    }
    while i < s.len()
        invariant
            i <= s@.len(),
            views(done@) + split_from::<C>(cur@, s@.skip(i as int)) == pieces::<C>(s@),
        decreases s@.len() - i,
    {
        let c = s[i];
        let ghost rest = s@.skip(i as int);
        proof {
            assert(rest[0] == c);
            assert(rest.drop_first() =~= s@.skip(i + 1));
        }
        let ghost d0 = views(done@);
        if C::is_separator(c) {
            let piece = cur;
            cur = Vec::new();
            done.push(piece);
            proof {
                assert(views(done@) =~= d0.push(piece@));
                assert(split_from::<C>(piece@, rest) == seq![piece@] + split_from::<C>(
                    Seq::empty(),
                    s@.skip(i + 1),
                ));
                assert(d0.push(piece@) + split_from::<C>(cur@, s@.skip(i + 1)) =~= d0 + (seq![
                    piece@,
                ] + split_from::<C>(Seq::empty(), s@.skip(i + 1))));
            }
        } else {
            cur.push(c);
        }
        i = i + 1;
    }
    let ghost d0 = views(done@);
    proof {
        assert(s@.skip(i as int).len() == 0);
    }
    done.push(cur);
    proof {
        assert(views(done@) =~= d0 + seq![cur@]);
    }
    done
}

fn is_comp_exec(p: &Vec<char>) -> (r: bool)
    ensures
        r == is_comp(p@),
{
    if p.len() == 0 {
        false
    } else if p.len() == 1 && p[0] == '.' {
        assert(p@ =~= dot());
        false
    } else {
        assert(p@.len() != 1 ==> p@ != dot());
        true
    }
}

fn is_dot_dot_exec(p: &Vec<char>) -> (r: bool)
    ensures
        r == (p@ == dot_dot()),
{
    if p.len() == 2 && p[0] == '.' && p[1] == '.' {
        assert(p@ =~= dot_dot());
        true
    } else {
        assert(p@.len() != 2 ==> p@ != dot_dot());
        false
    }
}

fn clone_chars(p: &Vec<char>) -> (r: Vec<char>)
    ensures
        r@ == p@,
{
    let mut out: Vec<char> = Vec::new();
    let mut i: usize = 0;
    while i < p.len()
        invariant
            i <= p@.len(),
            out@ == p@.take(i as int),
        decreases p@.len() - i,
    {
        out.push(p[i]);
        i = i + 1;
        assert(out@ =~= p@.take(i as int));
    }
    assert(p@.take(p@.len() as int) =~= p@);
    out
}

/// The pieces that name something.
pub fn keep_exec(ps: &Vec<Vec<char>>) -> (r: Vec<Vec<char>>)
    ensures
        views(r@) == keep(views(ps@)),
{
    let mut out: Vec<Vec<char>> = Vec::new();
    let mut i: usize = 0;
    while i < ps.len()
        invariant
            i <= ps@.len(),
            views(out@) == keep(views(ps@).take(i as int)),
        decreases ps@.len() - i,
    {
        let ghost t = views(ps@).take(i + 1);
        proof {
            assert(t.drop_last() =~= views(ps@).take(i as int));
            assert(t.last() == ps@[i as int]@);
        }
        if is_comp_exec(&ps[i]) {
            let ghost o = views(out@);
            out.push(clone_chars(&ps[i]));
            assert(views(out@) =~= o.push(ps@[i as int]@));
        }
        i = i + 1;
    }
    assert(views(ps@).take(ps@.len() as int) =~= views(ps@));
    out
}

/// Resolves `..` over the pieces.
pub fn resolve_exec(ps: &Vec<Vec<char>>) -> (r: Vec<Vec<char>>)
    ensures
        views(r@) == resolve(views(ps@)),
{
    let mut out: Vec<Vec<char>> = Vec::new();
    let mut i: usize = 0;
    while i < ps.len()
        invariant
            i <= ps@.len(),
            views(out@) == resolve(views(ps@).take(i as int)),
        decreases ps@.len() - i,
    {
        let ghost t = views(ps@).take(i + 1);
        let ghost o = views(out@);
        proof {
            assert(t.drop_last() =~= views(ps@).take(i as int));
            assert(t.last() == ps@[i as int]@);
        }
        if is_comp_exec(&ps[i]) {
            if is_dot_dot_exec(&ps[i]) {
                if out.len() > 0 {
                    out.pop();
                    assert(views(out@) =~= o.drop_last());
                }
            } else {
                out.push(clone_chars(&ps[i]));
                assert(views(out@) =~= o.push(ps@[i as int]@));
            }
        }
        i = i + 1;
    }
    assert(views(ps@).take(ps@.len() as int) =~= views(ps@));
    out
}

/// The pieces joined with `/`.
pub fn join_exec(ps: &Vec<Vec<char>>) -> (r: Vec<char>)
    ensures
        r@ == join(views(ps@)),
{
    let mut out: Vec<char> = Vec::new();
    let mut i: usize = 0;
    while i < ps.len()
        invariant
            i <= ps@.len(),
            out@ == join(views(ps@).take(i as int)),
        decreases ps@.len() - i,
    {
        let ghost t = views(ps@).take(i + 1);
        proof {
            assert(t.drop_last() =~= views(ps@).take(i as int));
            assert(t.last() == ps@[i as int]@);
        }
        if i > 0 {
            out.push('/');
        }
        let ghost base = out@;
        let p = &ps[i];
        let mut k: usize = 0;
        while k < p.len()
            invariant
                k <= p@.len(),
                out@ == base + p@.take(k as int),
            decreases p@.len() - k,
        {
            out.push(p[k]);
            k = k + 1;
            assert(out@ =~= base + p@.take(k as int));
        }
        proof {
            assert(p@.take(p@.len() as int) =~= p@);
            if i == 0 {
                assert(base =~= Seq::<char>::empty());
                assert(t.len() == 1);
                assert(out@ =~= t[0]);
            }
        }
        i = i + 1;
    }
    assert(views(ps@).take(ps@.len() as int) =~= views(ps@));
    out
}

fn has_dot_dot_exec(s: &Vec<char>) -> (r: bool)
    ensures
        r == has_dot_dot(s@),
{
    let mut i: usize = 0;
    while i < s.len() && i + 1 < s.len()
        invariant
            i <= s@.len(),
            forall|k: int| 0 <= k < i && k + 1 < s@.len() ==> !(s@[k] == '.' && #[trigger] s@[k + 1] == '.'),
        decreases s@.len() - i,
    {
        if s[i] == '.' && s[i + 1] == '.' {
            return true;
        }
        i = i + 1;
    }
    false
}

/// The path with `..` resolved (see [`normalize`]).
pub fn normalize_exec<C: Config>(s: &Vec<char>) -> (r: Vec<char>)
    ensures
        r@ == normalize::<C>(s@),
{
    if s.len() == 0 {
        let mut d: Vec<char> = Vec::new();
        d.push('.');
        assert(d@ =~= dot());
        d
    } else if !has_dot_dot_exec(s) {
        clone_chars(s)
    } else {
        let ps = split_pieces::<C>(s);
        let rs = resolve_exec(&ps);
        join_exec(&rs)
    }
}

/// The components of `s`.
pub fn components_exec<C: Config>(s: &Vec<char>) -> (r: Vec<Vec<char>>)
    ensures
        views(r@) == comps::<C>(s@),
{
    let ps = split_pieces::<C>(s);
    keep_exec(&ps)
}

} // verus!
