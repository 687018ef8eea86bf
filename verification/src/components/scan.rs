//! Scans for the first difference between two byte strings.

use vstd::prelude::*;

use crate::bhd5::{ascii_lower, spec_ascii_lower};

verus! {

pub open spec fn int_of(x: usize) -> int {
    x as int
}

/// The first `n` bytes agree as lowercase ASCII.
pub open spec fn lower_eq_upto(a: Seq<u8>, b: Seq<u8>, n: int) -> bool {
    forall|k: int| 0 <= k < n ==> spec_ascii_lower(#[trigger] a[k]) == spec_ascii_lower(b[k])
}

/// The first `n` bytes agree.
pub open spec fn eq_upto(a: Seq<u8>, b: Seq<u8>, n: int) -> bool {
    forall|k: int| 0 <= k < n ==> #[trigger] a[k] == b[k]
}

/// The index of the first byte where `a` and `b` differ as lowercase ASCII,
/// or their length.
pub fn first_lower_diff(a: &[u8], b: &[u8]) -> (r: usize)
    requires
        a@.len() == b@.len(),
    ensures
        r <= a@.len(),
        lower_eq_upto(a@, b@, r as int),
        r < a@.len() ==> spec_ascii_lower(a@[r as int]) != spec_ascii_lower(b@[r as int]),
{
    let mut i: usize = 0;
    while i < a.len() && ascii_lower(a[i]) == ascii_lower(b[i])
        invariant
            i <= a@.len(),
            a@.len() == b@.len(),
            lower_eq_upto(a@, b@, i as int),
        decreases a@.len() - i,
    {
        i = i + 1;
    }
    i
}

/// The index of the first byte where `a` and `b` differ, or the shorter length.
pub fn first_diff(a: &[u8], b: &[u8]) -> (r: usize)
    ensures
        r <= a@.len(),
        r <= b@.len(),
        eq_upto(a@, b@, r as int),
        r < a@.len() && r < b@.len() ==> a@[r as int] != b@[r as int],
{
    let mut i: usize = 0;
    while i < a.len() && i < b.len() && a[i] == b[i]
        invariant
            i <= a@.len(),
            i <= b@.len(),
            eq_upto(a@, b@, i as int),
        decreases a@.len() - i,
    {
        i = i + 1;
    }
    i
}

} // verus!
