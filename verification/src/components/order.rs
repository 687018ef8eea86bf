//! Orders on path components: ASCII-case-insensitive, and byte-wise.

use core::cmp::Ordering;

use vstd::prelude::*;
use vstd::string::StringSliceAdditionalSpecFns;

use crate::bhd5::{ascii_lower, spec_ascii_lower};
use crate::components::scan::{eq_upto, first_diff, first_lower_diff, int_of, lower_eq_upto};

verus! {

pub open spec fn ord_u8(a: u8, b: u8) -> Ordering {
    if a < b {
        Ordering::Less
    } else if a > b {
        Ordering::Greater
    } else {
        Ordering::Equal
    }
}

pub open spec fn ord_nat(a: nat, b: nat) -> Ordering {
    if a < b {
        Ordering::Less
    } else if a > b {
        Ordering::Greater
    } else {
        Ordering::Equal
    }
}

/// Bytes `a` and `b` (of one length) from index `i` on, compared as
/// lowercase ASCII.
pub open spec fn ord_lower_from(a: Seq<u8>, b: Seq<u8>, i: int) -> Ordering
    decreases a.len() - i,
{
    if i < 0 || i >= a.len() || i >= b.len() {
        Ordering::Equal
    } else if spec_ascii_lower(a[i]) != spec_ascii_lower(b[i]) {
        ord_u8(spec_ascii_lower(a[i]), spec_ascii_lower(b[i]))
    } else {
        ord_lower_from(a, b, i + 1)
    }
}

/// The shorter first; of one length, the first differing byte, as lowercase ASCII.
pub open spec fn ord_ignore_case(a: Seq<u8>, b: Seq<u8>) -> Ordering {
    if a.len() != b.len() {
        ord_nat(a.len(), b.len())
    } else {
        ord_lower_from(a, b, 0)
    }
}

/// Lexicographic byte order (the order of `str`).
pub open spec fn ord_bytes(a: Seq<u8>, b: Seq<u8>) -> Ordering
    decreases a.len(),
{
    if a.len() == 0 && b.len() == 0 {
        Ordering::Equal
    } else if a.len() == 0 {
        Ordering::Less
    } else if b.len() == 0 {
        Ordering::Greater
    } else if a[0] != b[0] {
        ord_u8(a[0], b[0])
    } else {
        ord_bytes(a.drop_first(), b.drop_first())
    }
}

pub open spec fn reverse(o: Ordering) -> Ordering {
    match o {
        Ordering::Less => Ordering::Greater,
        Ordering::Equal => Ordering::Equal,
        Ordering::Greater => Ordering::Less,
    }
}

/// Compares two strings by length, then byte by byte ignoring ASCII case.
pub fn cmp_ignore_ascii_case(a: &str, b: &str) -> (r: Ordering)
    ensures
        r == ord_ignore_case(a.spec_bytes(), b.spec_bytes()),
{
    cmp_bytes_ignore_case(a.as_bytes(), b.as_bytes())
}

pub fn cmp_bytes_ignore_case(a: &[u8], b: &[u8]) -> (r: Ordering)
    ensures
        r == ord_ignore_case(a@, b@),
{
    if a.len() < b.len() {
        return Ordering::Less;
    }
    if a.len() > b.len() {
        return Ordering::Greater;
    }
    let i = first_lower_diff(a, b);
    proof {
        lemma_ord_lower_diff(a@, b@, 0, int_of(i));
    }
    if i < a.len() {
        if ascii_lower(a[i]) < ascii_lower(b[i]) {
            Ordering::Less
        } else {
            Ordering::Greater
        }
    } else {
        Ordering::Equal
    }
}

pub fn cmp_bytes(a: &[u8], b: &[u8]) -> (r: Ordering)
    ensures
        r == ord_bytes(a@, b@),
{
    let i = first_diff(a, b);
    proof {
        lemma_ord_bytes_diff(a@, b@, int_of(i));
    }
    if i < a.len() && i < b.len() {
        if a[i] < b[i] {
            Ordering::Less
        } else {
            Ordering::Greater
        }
    } else if i < a.len() {
        Ordering::Greater
    } else if i < b.len() {
        Ordering::Less
    } else {
        Ordering::Equal
    }
}

proof fn lemma_ord_lower_diff(a: Seq<u8>, b: Seq<u8>, i: int, r: int)
    requires
        a.len() == b.len(),
        0 <= i <= r <= a.len(),
        lower_eq_upto(a, b, r),
        r < a.len() ==> spec_ascii_lower(a[r]) != spec_ascii_lower(b[r]),
    ensures
        ord_lower_from(a, b, i) == if r < a.len() {
            ord_u8(spec_ascii_lower(a[r]), spec_ascii_lower(b[r]))
        } else {
            Ordering::Equal
        },
    decreases r - i,
{
    if i < r {
        assert(spec_ascii_lower(a[i]) == spec_ascii_lower(b[i]));
        lemma_ord_lower_diff(a, b, i + 1, r);
    }
}

proof fn lemma_ord_bytes_diff(a: Seq<u8>, b: Seq<u8>, r: int)
    requires
        0 <= r <= a.len(),
        r <= b.len(),
        eq_upto(a, b, r),
        r < a.len() && r < b.len() ==> a[r] != b[r],
    ensures
        ord_bytes(a, b) == if r < a.len() && r < b.len() {
            ord_u8(a[r], b[r])
        } else if r < a.len() {
            Ordering::Greater
        } else if r < b.len() {
            Ordering::Less
        } else {
            Ordering::Equal
        },
    decreases r,
{
    if r > 0 {
        assert(a[0] == b[0]);
        let (a1, b1) = (a.drop_first(), b.drop_first());
        assert forall|k: int| 0 <= k < r - 1 implies #[trigger] a1[k] == b1[k] by {
            assert(a[k + 1] == b[k + 1]);
        }
        lemma_ord_bytes_diff(a1, b1, r - 1);
    }
}

/// Comparing in the other order gives the reverse answer.
pub proof fn lemma_ord_ignore_case_antisymmetric(a: Seq<u8>, b: Seq<u8>)
    ensures
        ord_ignore_case(b, a) == reverse(ord_ignore_case(a, b)),
        ord_ignore_case(a, a) == Ordering::Equal,
{
    if a.len() == b.len() {
        lemma_ord_lower_antisymmetric(a, b, 0);
    }
    lemma_ord_lower_refl(a, 0);
}

proof fn lemma_ord_lower_antisymmetric(a: Seq<u8>, b: Seq<u8>, i: int)
    requires
        a.len() == b.len(),
    ensures
        ord_lower_from(b, a, i) == reverse(ord_lower_from(a, b, i)),
    decreases a.len() - i,
{
    if 0 <= i < a.len() {
        lemma_ord_lower_antisymmetric(a, b, i + 1);
    }
}

proof fn lemma_ord_lower_refl(a: Seq<u8>, i: int)
    ensures
        ord_lower_from(a, a, i) == Ordering::Equal,
    decreases a.len() - i,
{
    if 0 <= i < a.len() {
        lemma_ord_lower_refl(a, i + 1);
    }
}

/// Byte order too: reversed arguments, reversed answer; equal exactly when
/// the bytes are.
pub proof fn lemma_ord_bytes_antisymmetric(a: Seq<u8>, b: Seq<u8>)
    ensures
        ord_bytes(b, a) == reverse(ord_bytes(a, b)),
        (ord_bytes(a, b) == Ordering::Equal) <==> a == b,
    decreases a.len(),
{
    if a.len() > 0 && b.len() > 0 && a[0] == b[0] {
        lemma_ord_bytes_antisymmetric(a.drop_first(), b.drop_first());
        if a.drop_first() == b.drop_first() {
            assert(a =~= seq![a[0]] + a.drop_first());
            assert(b =~= seq![b[0]] + b.drop_first());
        }
    }
    if a.len() == 0 && b.len() == 0 {
        assert(a =~= b);
    }
}


/// Paths compared component by component, each pair by `ord_ignore_case`
/// (`ascii`) or by bytes; a path that is a prefix of the other comes first.
pub open spec fn ord_components(ascii: bool, a: Seq<Seq<u8>>, b: Seq<Seq<u8>>) -> Ordering
    decreases a.len(),
{
    if a.len() == 0 && b.len() == 0 {
        Ordering::Equal
    } else if a.len() == 0 {
        Ordering::Less
    } else if b.len() == 0 {
        Ordering::Greater
    } else {
        let c = if ascii {
            ord_ignore_case(a[0], b[0])
        } else {
            ord_bytes(a[0], b[0])
        };
        if c != Ordering::Equal {
            c
        } else {
            ord_components(ascii, a.drop_first(), b.drop_first())
        }
    }
}

/// A component with its ASCII capitals lowercased.
pub open spec fn fold_bytes(c: Seq<u8>) -> Seq<u8> {
    c.map_values(|b: u8| spec_ascii_lower(b))
}

/// Components with their ASCII capitals lowercased.
pub open spec fn fold_case(a: Seq<Seq<u8>>) -> Seq<Seq<u8>> {
    a.map_values(|c: Seq<u8>| fold_bytes(c))
}

proof fn lemma_lower_from_fold(a: Seq<u8>, b: Seq<u8>, i: int)
    requires
        0 <= i,
    ensures
        ord_lower_from(fold_bytes(a), b, i) == ord_lower_from(a, b, i),
        ord_lower_from(b, fold_bytes(a), i) == ord_lower_from(b, a, i),
    decreases a.len() - i,
{
    if i < a.len() && i < b.len() {
        assert(fold_bytes(a)[i] == spec_ascii_lower(a[i]));
        lemma_lower_from_fold(a, b, i + 1);
    }
}

/// Ignoring case, a component compares as its lowercase form does.
proof fn lemma_ignore_case_fold(a: Seq<u8>, b: Seq<u8>)
    ensures
        ord_ignore_case(fold_bytes(a), b) == ord_ignore_case(a, b),
        ord_ignore_case(b, fold_bytes(a)) == ord_ignore_case(b, a),
{
    lemma_lower_from_fold(a, b, 0);
}

/// Ignoring case, a path compares as its lowercase form does, on either side.
pub proof fn lemma_ord_fold_case(a: Seq<Seq<u8>>, b: Seq<Seq<u8>>)
    ensures
        ord_components(true, fold_case(a), b) == ord_components(true, a, b),
        ord_components(true, b, fold_case(a)) == ord_components(true, b, a),
    decreases a.len(),
{
    if a.len() > 0 && b.len() > 0 {
        assert(fold_case(a)[0] == fold_bytes(a[0]));
        assert(fold_case(a).drop_first() =~= fold_case(a.drop_first()));
        lemma_ignore_case_fold(a[0], b[0]);
        lemma_ord_fold_case(a.drop_first(), b.drop_first());
    }
}

/// Ignoring case, the order of paths depends only on their lowercased
/// components: paths equal once lowercased compare the same with any path,
/// on either side.
pub proof fn lemma_ord_depends_on_folded(a: Seq<Seq<u8>>, a2: Seq<Seq<u8>>, b: Seq<Seq<u8>>)
    requires
        fold_case(a) == fold_case(a2),
    ensures
        ord_components(true, a, b) == ord_components(true, a2, b),
        ord_components(true, b, a) == ord_components(true, b, a2),
{
    lemma_ord_fold_case(a, b);
    lemma_ord_fold_case(a2, b);
}

pub open spec fn views(v: Seq<Vec<u8>>) -> Seq<Seq<u8>> {
    Seq::new(v.len(), |i: int| v[i]@)
}

/// Compares two component lists.
pub fn cmp_component_lists(a: &Vec<Vec<u8>>, b: &Vec<Vec<u8>>, ascii: bool) -> (r: Ordering)
    ensures
        r == ord_components(ascii, views(a@), views(b@)),
{
    let mut i: usize = 0;
    assert(views(a@).skip(int_of(i)) =~= views(a@));
    assert(views(b@).skip(int_of(i)) =~= views(b@));
    while i < a.len() && i < b.len()
        invariant
            int_of(i) <= a@.len(),
            int_of(i) <= b@.len(),
            ord_components(ascii, views(a@), views(b@)) == ord_components(
                ascii,
                views(a@).skip(int_of(i)),
                views(b@).skip(int_of(i)),
            ),
        decreases a@.len() - int_of(i),
    {
        let c = if ascii {
            cmp_bytes_ignore_case(a[i].as_slice(), b[i].as_slice())
        } else {
            cmp_bytes(a[i].as_slice(), b[i].as_slice())
        };
        proof {
            let (sa, sb) = (views(a@).skip(int_of(i)), views(b@).skip(int_of(i)));
            assert(sa[0] == a@[int_of(i)]@);
            assert(sb[0] == b@[int_of(i)]@);
            assert(sa.drop_first() =~= views(a@).skip(int_of(i) + 1));
            assert(sb.drop_first() =~= views(b@).skip(int_of(i) + 1));
        }
        match c {
            Ordering::Equal => {},
            _ => {
                return c;
            },
        }
        i = i + 1;
    }
    if i < a.len() {
        Ordering::Greater
    } else if i < b.len() {
        Ordering::Less
    } else {
        Ordering::Equal
    }
}

/// Comparing in the other order gives the reverse answer, and a path is
/// equal to itself.
pub proof fn lemma_ord_components_antisymmetric(ascii: bool, a: Seq<Seq<u8>>, b: Seq<Seq<u8>>)
    ensures
        ord_components(ascii, b, a) == reverse(ord_components(ascii, a, b)),
        ord_components(ascii, a, a) == Ordering::Equal,
    decreases a.len(),
{
    if a.len() > 0 && b.len() > 0 {
        lemma_ord_ignore_case_antisymmetric(a[0], b[0]);
        lemma_ord_bytes_antisymmetric(a[0], b[0]);
        lemma_ord_components_antisymmetric(ascii, a.drop_first(), b.drop_first());
    }
    if a.len() > 0 {
        lemma_ord_ignore_case_antisymmetric(a[0], a[0]);
        lemma_ord_bytes_antisymmetric(a[0], a[0]);
        lemma_ord_components_antisymmetric(ascii, a.drop_first(), a.drop_first());
    }
}
} // verus!
