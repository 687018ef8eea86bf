//! A compressed trie over the nibbles of its keys: paths through it are
//! packed into one integer, a mixed-radix number whose digits are child
//! positions.

pub mod divisor;
pub mod domain;

use vstd::prelude::*;

use crate::libsais::TextError;
use crate::trie::divisor::{apply_ok, divisor_value, is_pow2, Divisor};
use crate::trie::domain::{compress, compress_spec};

verus! {

/// Why a trie could not be built.
#[derive(Clone, Copy, Debug, PartialEq, Eq, Structural)]
pub enum TrieError {
    Text(TextError),
}

/// A path from the root of a trie: the child positions taken, most
/// significant first, each a digit in the radix of its node's divisor.
#[derive(Clone, Copy, Debug, PartialEq, Eq, Structural)]
pub struct TriePath(pub u64);

/// The digit recorded for child `c`: non-powers of two skip digit 0.
pub open spec fn digit_of(c: u8, d: Divisor) -> int {
    if is_pow2(d) {
        c as int
    } else {
        c + 1
    }
}

impl TriePath {
    pub fn new() -> (r: TriePath)
        ensures
            r.0 == 0,
    {
        TriePath(0)
    }

    /// Appends child position `child_index` taken at a node with divisor `divisor`.
    pub fn push(&mut self, child_index: u8, divisor: Divisor)
        requires
            child_index < 16,
            digit_of(child_index, divisor) < divisor_value(divisor),
            old(self).0 * divisor_value(divisor) + digit_of(child_index, divisor) <= u64::MAX,
        ensures
            final(self).0 == old(self).0 * divisor_value(divisor) + digit_of(child_index, divisor),
    {
        let mut c = child_index;
        if !divisor.is_power_of_two() {
            c = c + 1;
        }
        let d = divisor.value();
        proof {
            assert(self.0 * d <= self.0 * d + c);
        }
        self.0 = self.0 * d + c as u64;
    }

    /// Removes the last child position, taken at a node with divisor `divisor`.
    pub fn pop(&mut self, divisor: Divisor) -> (r: u8)
        requires
            apply_ok(divisor, old(self).0),
            is_pow2(divisor) || (old(self).0 as int) % divisor_value(divisor) != 0,
        ensures
            final(self).0 == (old(self).0 as int) / divisor_value(divisor),
            digit_of(r, divisor) == (old(self).0 as int) % divisor_value(divisor),
            r < 16,
    {
        let (q, mut c) = divisor.apply(self.0);
        if !divisor.is_power_of_two() {
            c = c - 1;
        }
        self.0 = q;
        c
    }

    pub fn is_empty(&self) -> (r: bool)
        ensures
            r == (self.0 == 0),
    {
        self.0 == 0
    }
}

/// Popping a position pushed at the same node gives it back, and the path before.
pub proof fn lemma_pop_push(path: u64, c: u8, d: Divisor)
    requires
        c < 16,
        digit_of(c, d) < divisor_value(d),
        path * divisor_value(d) + digit_of(c, d) <= u64::MAX,
    ensures
        ({
            let pushed = path * divisor_value(d) + digit_of(c, d);
            &&& pushed / divisor_value(d) == path
            &&& pushed % divisor_value(d) == digit_of(c, d)
            &&& (is_pow2(d) || d == Divisor::_1 || pushed % divisor_value(d) != 0)
        }),
{
    let n = divisor_value(d);
    let pushed = path * n + digit_of(c, d);
    assert(pushed / n == path && pushed % n == digit_of(c, d)) by (nonlinear_arith)
        requires
            pushed == path * n + digit_of(c, d),
            0 <= digit_of(c, d) < n,
            n > 0,
    ;
}


/// A node: its children start at `next_index`; `domain` holds the nibbles
/// they stand for; `divisor` is the radix of their positions in paths.
#[derive(Clone, Copy, Debug)]
pub struct CompressedNode {
    pub next_index: u32,
    pub child_count: u8,
    pub divisor: Divisor,
    pub domain: u16,
}

/// A stored value and the path that leads to it.
#[derive(Clone, Debug)]
pub struct TrieValue<V> {
    pub path: TriePath,
    pub value: V,
}

/// Nodes alternate between "even" ones, branching on the high nibble of the
/// next key byte, and "odd" ones, which hold the key bytes their edge
/// consumes and branch on the low nibble.
#[derive(Debug)]
pub struct CompressedTrie<V> {
    pub nodes: Vec<CompressedNode>,
    pub values: Vec<TrieValue<V>>,
    /// Nul-terminated key fragments.
    pub nibbles: Vec<u8>,
}

/// The outcome of walking a key down the trie.
pub enum Walk {
    Found(u64),
    Missing,
    /// The walk would index out of bounds or overflow.
    Stuck,
}

/// The fragment at `index` of the nibble store: up to the next nul.
pub open spec fn fragment(nibbles: Seq<u8>, index: int) -> Option<Seq<u8>> {
    match crate::libsais::first_nul(nibbles, index) {
        Some(e) => if index <= e {
            Some(nibbles.subrange(index, e))
        } else {
            None
        },
        None => None,
    }
}

pub open spec fn child_counts(nodes: Seq<CompressedNode>, from: int, to: int) -> int
    decreases to - from,
{
    if to <= from {
        0
    } else {
        child_counts(nodes, from, to - 1) + nodes[to - 1].child_count
    }
}

pub open spec fn push_ok(path: int, c: int, d: Divisor) -> bool {
    c < 16 && digit_of(c as u8, d) < divisor_value(d) && path * divisor_value(d) + digit_of(
        c as u8,
        d,
    ) <= u64::MAX
}

pub open spec fn pushed(path: int, c: int, d: Divisor) -> int {
    path * divisor_value(d) + digit_of(c as u8, d)
}

/// Walks `key` from the even node `even`, with `path` taken so far.
pub open spec fn walk(
    nodes: Seq<CompressedNode>,
    nibbles: Seq<u8>,
    even: int,
    key: Seq<u8>,
    path: int,
) -> Walk
    decreases key.len(),
{
    if !(0 <= even < nodes.len()) {
        Walk::Stuck
    } else if nodes[even].next_index == 0 {
        if key.len() == 0 {
            Walk::Found(path as u64)
        } else {
            Walk::Missing
        }
    } else if key.len() == 0 {
        Walk::Stuck
    } else {
        let node = nodes[even];
        let hi = key[0] / 16;
        let lo = key[0] % 16;
        match compress_spec(node.domain, hi as int) {
            None => Walk::Missing,
            Some(c) => if !push_ok(path, c, node.divisor) {
                Walk::Stuck
            } else {
                let path1 = pushed(path, c, node.divisor);
                let odd_index = node.next_index + c;
                if odd_index >= nodes.len() {
                    Walk::Stuck
                } else {
                    let odd = nodes[odd_index];
                    match fragment(nibbles, odd.next_index as int) {
                        None => Walk::Stuck,
                        Some(f) => if f.len() == 0 {
                            Walk::Stuck
                        } else if !(f.len() <= key.len() && key.subrange(0, f.len() as int) == f) {
                            Walk::Missing
                        } else {
                            let rest = key.subrange(f.len() as int, key.len() as int);
                            if rest.len() == 0 {
                                Walk::Found(path1 as u64)
                            } else {
                                match compress_spec(odd.domain, lo as int) {
                                    None => Walk::Missing,
                                    Some(c2) => if !push_ok(path1, c2, odd.divisor) {
                                        Walk::Stuck
                                    } else {
                                        let path2 = pushed(path1, c2, odd.divisor);
                                        let first = node.next_index as int;
                                        let idx = c2 + child_counts(nodes, first, odd_index);
                                        if idx > u8::MAX {
                                            Walk::Stuck
                                        } else {
                                            walk(
                                                nodes,
                                                nibbles,
                                                first + node.child_count + idx,
                                                rest,
                                                path2,
                                            )
                                        }
                                    },
                                }
                            }
                        },
                    }
                }
            },
        }
    }
}

/// The path of `key`: the empty path for the empty key, else where the walk
/// from the root leads.
pub open spec fn key_path(nodes: Seq<CompressedNode>, nibbles: Seq<u8>, key: Seq<u8>) -> Walk {
    if key.len() == 0 {
        Walk::Found(0)
    } else {
        walk(nodes, nibbles, 0, key, 0)
    }
}

/// Values ordered by path.
pub open spec fn values_sorted<V>(values: Seq<TrieValue<V>>) -> bool {
    forall|i: int, j: int| 0 <= i < j < values.len() ==> (#[trigger] values[i]).path.0 < (
    #[trigger] values[j]).path.0
}

/// The key spelled by `path` from the even node `even`: the fragments of the
/// odd nodes it passes, popping positions until a node without children.
pub open spec fn unwalk(
    nodes: Seq<CompressedNode>,
    nibbles: Seq<u8>,
    even: int,
    path: int,
) -> Option<Seq<u8>>
    decreases nodes.len() - even,
{
    if !(0 <= even < nodes.len()) {
        None
    } else if nodes[even].next_index == 0 {
        Some(Seq::empty())
    } else {
        let node = nodes[even];
        let n1 = divisor_value(node.divisor);
        if !(0 <= path <= u64::MAX && apply_ok(node.divisor, path as u64) && (is_pow2(node.divisor)
            || path % n1 != 0)) {
            None
        } else {
            let c = if is_pow2(node.divisor) {
                path % n1
            } else {
                path % n1 - 1
            };
            let path1 = path / n1;
            let odd_index = node.next_index + c;
            if odd_index >= nodes.len() {
                None
            } else {
                let odd = nodes[odd_index];
                let n2 = divisor_value(odd.divisor);
                match fragment(nibbles, odd.next_index as int) {
                    None => None,
                    Some(f) => if !(apply_ok(odd.divisor, path1 as u64) && (is_pow2(odd.divisor)
                        || path1 % n2 != 0)) {
                        None
                    } else {
                        let c2 = if is_pow2(odd.divisor) {
                            path1 % n2
                        } else {
                            path1 % n2 - 1
                        };
                        let first = node.next_index as int;
                        let idx = c2 + child_counts(nodes, first, odd_index);
                        let next = first + node.child_count + idx;
                        if idx > u8::MAX || next <= even || next >= nodes.len() {
                            None
                        } else {
                            match unwalk(nodes, nibbles, next, path1 / n2) {
                                None => None,
                                Some(k) => Some(f + k),
                            }
                        }
                    },
                }
            }
        }
    }
}

impl<V> CompressedTrie<V> {
    fn nibble(&self, index: u32) -> (r: Vec<u8>)
        requires
            fragment(self.nibbles@, index as int) is Some,
        ensures
            fragment(self.nibbles@, index as int) == Some(r@),
    {
        let mut out: Vec<u8> = Vec::new();
        let mut i = index as usize;
        let n = self.nibbles.len();
        while i < n && self.nibbles[i] != 0
            invariant
                index <= i <= n,
                n == self.nibbles@.len(),
                out@ == self.nibbles@.subrange(index as int, i as int),
                crate::libsais::first_nul(self.nibbles@, index as int) == crate::libsais::first_nul(
                    self.nibbles@,
                    i as int,
                ),
            decreases n - i,
        {
            out.push(self.nibbles[i]);
            i = i + 1;
            assert(out@ =~= self.nibbles@.subrange(index as int, i as int));
        }
        out
    }

    /// The sum of the child counts of nodes `from..to`.
    fn child_count_sum(&self, from: usize, to: usize) -> (r: Option<u8>)
        requires
            from <= to <= self.nodes@.len(),
        ensures
            match r {
                Some(v) => v == child_counts(self.nodes@, from as int, to as int),
                None => child_counts(self.nodes@, from as int, to as int) > u8::MAX,
            },
    {
        let mut sum: u8 = 0;
        let mut i = from;
        while i < to
            invariant
                from <= i <= to <= self.nodes@.len(),
                sum == child_counts(self.nodes@, from as int, i as int),
            decreases to - i,
        {
            let c = self.nodes[i].child_count;
            if sum > 255 - c {
                proof {
                    lemma_child_counts_grow(self.nodes@, from as int, i + 1, to as int);
                }
                return None;
            }
            sum = sum + c;
            i = i + 1;
        }
        Some(sum)
    }

    /// The path the key leads to, if the trie has it.
    pub fn get_path(&self, key: &[u8]) -> (r: Option<TriePath>)
        requires
            !(key_path(self.nodes@, self.nibbles@, key@) is Stuck),
        ensures
            match key_path(self.nodes@, self.nibbles@, key@) {
                Walk::Found(p) => r == Some(TriePath(p)),
                _ => r is None,
            },
    {
        if key.len() == 0 {
            return Some(TriePath(0));
        }
        let mut k: &[u8] = key;
        let mut path = TriePath(0);
        let mut even: usize = 0;
        let ghost w = walk(self.nodes@, self.nibbles@, 0, key@, 0);
        loop
            invariant
                w == walk(self.nodes@, self.nibbles@, even as int, k@, path.0 as int),
                w == key_path(self.nodes@, self.nibbles@, key@),
                !(w is Stuck),
            decreases k@.len(),
        {
            if even >= self.nodes.len() {
                return None;
            }
            let node = self.nodes[even];
            if node.next_index == 0 {
                if k.len() == 0 {
                    return Some(path);
                }
                return None;
            }
            if k.len() == 0 {
                return None;
            }
            let hi = k[0] / 16;
            let lo = k[0] % 16;
            let c = match compress(node.domain, hi) {
                Some(c) => c,
                None => {
                    return None;
                },
            };
            path.push(c, node.divisor);
            let odd64 = node.next_index as u64 + c as u64;
            if odd64 >= self.nodes.len() as u64 {
                return None;
            }
            let odd_index = odd64 as usize;
            let odd = self.nodes[odd_index];
            let f = self.nibble(odd.next_index);
            if !starts_with(k, &f) {
                return None;
            }
            let rest = vstd::slice::slice_subrange(k, f.len(), k.len());
            if rest.len() == 0 {
                return Some(path);
            }
            let c2 = match compress(odd.domain, lo) {
                Some(c2) => c2,
                None => {
                    return None;
                },
            };
            path.push(c2, odd.divisor);
            let first = node.next_index as usize;
            let before = match self.child_count_sum(first, odd_index) {
                Some(v) => v,
                None => {
                    return None;
                },
            };
            if c2 > 255 - before {
                return None;
            }
            let idx = c2 + before;
            let next64 = first as u64 + node.child_count as u64 + idx as u64;
            if next64 >= self.nodes.len() as u64 {
                assert(walk(self.nodes@, self.nibbles@, next64 as int, rest@, path.0 as int) is Stuck);
                return None;
            }
            even = next64 as usize;
            k = rest;
        }
    }

    /// The value at `path`, found by binary search over the values sorted by path.
    pub fn path_to_value(&self, path: TriePath) -> (r: Option<&V>)
        requires
            values_sorted(self.values@),
        ensures
            match r {
                Some(v) => exists|i: int|
                    0 <= i < self.values@.len() && self.values@[i].path == path && *v
                        == self.values@[i].value,
                None => forall|i: int|
                    0 <= i < self.values@.len() ==> self.values@[i].path != path,
            },
    {
        let mut lo: usize = 0;
        let mut hi: usize = self.values.len();
        while lo < hi
            invariant
                lo <= hi <= self.values@.len(),
                values_sorted(self.values@),
                forall|i: int| 0 <= i < lo ==> #[trigger] self.values@[i].path.0 < path.0,
                forall|i: int| hi <= i < self.values@.len() ==> #[trigger] self.values@[i].path.0
                    > path.0,
            decreases hi - lo,
        {
            let mid = lo + (hi - lo) / 2;
            let p = self.values[mid].path.0;
            if p == path.0 {
                assert(self.values@[mid as int].path == path);
                return Some(&self.values[mid].value);
            } else if p < path.0 {
                lo = mid + 1;
            } else {
                hi = mid;
            }
        }
        assert forall|i: int| 0 <= i < self.values@.len() implies self.values@[i].path != path by {
            if i < lo {
                assert(self.values@[i].path.0 < path.0);
            } else {
                assert(self.values@[i].path.0 > path.0);
            }
        }
        None
    }

    /// The value of `key`.
    pub fn get(&self, key: &[u8]) -> (r: Option<&V>)
        requires
            !(key_path(self.nodes@, self.nibbles@, key@) is Stuck),
            values_sorted(self.values@),
        ensures
            match key_path(self.nodes@, self.nibbles@, key@) {
                Walk::Found(p) => match r {
                    Some(v) => exists|i: int|
                        0 <= i < self.values@.len() && self.values@[i].path.0 == p && *v
                            == self.values@[i].value,
                    None => forall|i: int|
                        0 <= i < self.values@.len() ==> self.values@[i].path.0 != p,
                },
                _ => r is None,
            },
    {
        let path = self.get_path(key)?;
        self.path_to_value(path)
    }

    /// The key that leads to `path`.
    pub fn path_to_key(&self, path: TriePath) -> (r: Vec<u8>)
        requires
            path.0 == 0 || unwalk(self.nodes@, self.nibbles@, 0, path.0 as int) is Some,
        ensures
            path.0 == 0 ==> r@.len() == 0,
            path.0 != 0 ==> unwalk(self.nodes@, self.nibbles@, 0, path.0 as int) == Some(r@),
    {
        let mut result: Vec<u8> = Vec::new();
        if path.is_empty() {
            return result;
        }
        let mut p = path;
        let mut even: usize = 0;
        let ghost whole = unwalk(self.nodes@, self.nibbles@, 0, path.0 as int).unwrap();
        loop
            invariant
                path.0 != 0,
                unwalk(self.nodes@, self.nibbles@, 0, path.0 as int) == Some(whole),
                unwalk(self.nodes@, self.nibbles@, even as int, p.0 as int) matches Some(k)
                    && result@ + k == whole,
            decreases self.nodes@.len() - even,
        {
            let node = self.nodes[even];
            if node.next_index == 0 {
                assert(result@ + Seq::<u8>::empty() =~= result@);
                return result;
            }
            let nlen = self.nodes.len();
            let ghost p0 = p.0 as int;
            let ghost k0 = unwalk(self.nodes@, self.nibbles@, even as int, p0).unwrap();
            assert(apply_ok(node.divisor, p.0));
            let c = p.pop(node.divisor);
            let ghost n1 = divisor_value(node.divisor);
            assert(c == if is_pow2(node.divisor) { p0 % n1 } else { p0 % n1 - 1 });
            assert(node.next_index + c < self.nodes@.len());
            let odd_index = (node.next_index as u64 + c as u64) as usize;
            let odd = self.nodes[odd_index];
            assert(fragment(self.nibbles@, odd.next_index as int) is Some);
            let f = self.nibble(odd.next_index);
            let ghost before = result@;
            let mut m: usize = 0;
            while m < f.len()
                invariant
                    m <= f@.len(),
                    result@ == before + f@.subrange(0, m as int),
                decreases f@.len() - m,
            {
                result.push(f[m]);
                m = m + 1;
                assert(result@ =~= before + f@.subrange(0, m as int));
            }
            assert(f@.subrange(0, f@.len() as int) =~= f@);
            let c2 = p.pop(odd.divisor);
            let first = node.next_index as usize;
            let before_count = match self.child_count_sum(first, odd_index) {
                Some(v) => v,
                None => {
                    return result;
                },
            };
            let idx = c2 + before_count;
            let ghost n2 = divisor_value(odd.divisor);
            let ghost next = first + node.child_count + idx;
            assert(c2 == if is_pow2(odd.divisor) { (p0 / n1) % n2 } else { (p0 / n1) % n2 - 1 });
            assert(next < nlen && next > even);
            assert(unwalk(self.nodes@, self.nibbles@, even as int, p0) == match unwalk(
                self.nodes@,
                self.nibbles@,
                next,
                p0 / n1 / n2,
            ) {
                None => None,
                Some(k) => Some(f@ + k),
            });
            even = (first as u64 + node.child_count as u64 + idx as u64) as usize;
        }
    }
}

proof fn lemma_child_counts_grow(nodes: Seq<CompressedNode>, from: int, i: int, to: int)
    requires
        from <= i <= to,
    ensures
        child_counts(nodes, from, i) <= child_counts(nodes, from, to),
    decreases to - i,
{
    if i < to {
        lemma_child_counts_grow(nodes, from, i, to - 1);
    }
}

/// Whether `k` starts with `f`.
fn starts_with(k: &[u8], f: &Vec<u8>) -> (r: bool)
    ensures
        r == (f@.len() <= k@.len() && k@.subrange(0, f@.len() as int) == f@),
{
    if f.len() > k.len() {
        return false;
    }
    let mut m: usize = 0;
    while m < f.len()
        invariant
            m <= f@.len() <= k@.len(),
            forall|t: int| 0 <= t < m ==> f@[t] == k@[t],
        decreases f@.len() - m,
    {
        if f[m] != k[m] {
            assert(k@.subrange(0, f@.len() as int)[m as int] != f@[m as int]);
            return false;
        }
        m = m + 1;
    }
    assert(k@.subrange(0, f@.len() as int) =~= f@);
    true
}

} // verus!
