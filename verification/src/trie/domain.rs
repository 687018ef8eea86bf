//! The set of nibbles a trie node has children for, as a 16-bit mask.

use vstd::prelude::*;

verus! {

/// Nibbles `0..16` as bits of a mask.
pub type Domain16 = u16;

pub open spec fn has(mask: u16, v: int) -> bool {
    (mask >> (v as u16)) & 1 == 1
}

/// The number of nibbles below `v` in `mask`.
pub open spec fn rank(mask: u16, v: int) -> int
    decreases v,
{
    if v <= 0 {
        0
    } else {
        rank(mask, v - 1) + if has(mask, v - 1) {
            1int
        } else {
            0int
        }
    }
}

/// The position of nibble `v` among the nibbles of `mask`, if it is one.
pub open spec fn compress_spec(mask: u16, v: int) -> Option<int> {
    if has(mask, v) {
        Some(rank(mask, v))
    } else {
        None
    }
}

/// Adds nibble `value` to the mask.
pub fn add_nibble(mask: &mut u16, value: u8)
    requires
        value < 16,
    ensures
        forall|v: int| 0 <= v < 16 ==> (has(*final(mask), v) <==> (has(*old(mask), v) || v == value)),
{
    let old_mask = *mask;
    *mask = *mask | (1u16 << value);
    assert forall|v: int| 0 <= v < 16 implies (has(*mask, v) <==> (has(old_mask, v) || v == value)) by {
        let vv = v as u16;
        let m = *mask;
        assert(((old_mask | (1u16 << value)) >> vv) & 1 == 1 <==> ((old_mask >> vv) & 1 == 1 || vv
            == value as u16)) by (bit_vector)
            requires
                vv < 16,
                value < 16,
        ;
    }
}

/// The position of nibble `value` among those of `mask`.
pub fn compress(mask: u16, value: u8) -> (r: Option<u8>)
    requires
        value < 16,
    ensures
        match compress_spec(mask, value as int) {
            Some(p) => r == Some(p as u8) && 0 <= p < 16,
            None => r is None,
        },
        r matches Some(p) ==> p < 16,
{
    if (mask >> (value as u16)) & 1 != 1 {
        return None;
    }
    let mut count: u8 = 0;
    let mut v: u8 = 0;
    while v < value
        invariant
            v <= value < 16,
            count == rank(mask, v as int),
            count <= v,
        decreases value - v,
    {
        if (mask >> (v as u16)) & 1 == 1 {
            count = count + 1;
        }
        v = v + 1;
    }
    Some(count)
}

} // verus!
