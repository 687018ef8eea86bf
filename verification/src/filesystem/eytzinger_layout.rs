//! The eytzinger layout of a sorted block of names, from the `eytzinger`
//! crate: a binary search tree stored layer by layer, the root first, the
//! children of position `i` at `2i + 1` and `2i + 2`.

use eytzinger::SliceExt;
use vstd::prelude::*;

use crate::filesystem::names::name_lt;
use crate::filesystem::path::views;

verus! {

/// The positions, in a sorted sequence of `n` elements, of the elements
/// that the eytzinger layout of it holds, in the order it holds them.
pub uninterp spec fn eytzinger_order(n: nat) -> Seq<int>;

/// `p` lists each of `0..n` once.
pub open spec fn is_permutation(p: Seq<int>, n: nat) -> bool {
    &&& p.len() == n
    &&& forall|j: int| 0 <= j < n ==> 0 <= #[trigger] p[j] < n
    &&& forall|i: int, j: int| 0 <= i < n && 0 <= j < n && i != j ==> #[trigger] p[i] != #[trigger] p[j]
    &&& forall|k: int| 0 <= k < n ==> #[trigger] p.contains(k)
}

/// `s` is the eytzinger layout of a strictly increasing sequence of names:
/// a name that the sorted sequence holds earlier comes before by name.
pub open spec fn eytzinger_sorted(s: Seq<Seq<char>>) -> bool {
    let p = eytzinger_order(s.len());
    forall|x: int, y: int|
        0 <= x < s.len() && 0 <= y < s.len() && p[x] < p[y] ==> name_lt(
            #[trigger] s[x],
            #[trigger] s[y],
        )
}

/// Rearranges `v`, taken as sorted, into its eytzinger layout, by
/// `eytzinger::SliceExt::eytzingerize` with `InplacePermutator`. The
/// crate applies the permutation that `PermutationGenerator::new(len)`
/// yields, which depends on the length alone: position `j` receives the
/// element at `eytzinger_order(len)[j]`, and every position is used once.
/// (No vector that fits in memory is long enough to overflow the index
/// arithmetic of the generator.)
#[verifier::external_body]
pub(crate) fn eytzingerize<T>(v: &mut Vec<T>)
    ensures
        final(v)@.len() == old(v)@.len(),
        is_permutation(eytzinger_order(final(v)@.len()), final(v)@.len()),
        forall|j: int|
            0 <= j < final(v)@.len() ==> #[trigger] final(v)@[j] == old(v)@[eytzinger_order(
                old(v)@.len(),
            )[j]],
{
    v.as_mut_slice().eytzingerize(&mut eytzinger::permutation::InplacePermutator);
}

/// Searches `keys[start..end]`, an eytzinger layout of strictly increasing
/// names, for `c` with `eytzinger::SliceExt::eytzinger_search` (which
/// compares `Vec<char>` lexicographically by character, as [`name_lt`]
/// orders): the position in the block of the name equal to `c`, or `None`
/// when the block has no such name.
#[verifier::external_body]
pub(crate) fn eytzinger_search_names(keys: &Vec<Vec<char>>, start: usize, end: usize, c: &Vec<char>) -> (r:
    Option<usize>)
    requires
        start <= end <= keys@.len(),
        eytzinger_sorted(views(keys@.subrange(start as int, end as int))),
    ensures
        match r {
            Some(j) => j < end - start && keys@[start + j]@ == c@,
            None => forall|j: int| start <= j < end ==> keys@[j]@ != c@,
        },
{
    keys[start..end].eytzinger_search(c)
}

} // verus!
