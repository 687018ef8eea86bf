//! The breadth-first layout of a frozen filesystem: the root first, then
//! the children of each directory in one block, in the order the
//! directories themselves come, each block in the eytzinger layout of its
//! names sorted.

use vstd::prelude::*;
use vstd::set_lib::{lemma_int_range, lemma_len_subset, set_int_range};

use crate::filesystem::eytzinger_layout::{eytzinger_order, eytzingerize, is_permutation};
use crate::filesystem::names::{lemma_name_lt_irreflexive, name_lt};
use crate::filesystem::tree::Table;

verus! {

/// What a node of the layout is: a directory, with the block of its
/// children, or a file, with the index of its data.
#[derive(Clone, Copy, Debug)]
pub enum NodeContent {
    Dir { child_index: usize, child_count: usize },
    File { data_index: u32 },
}

/// Position `m` of the layout holds table node `ord[m]`: a directory's
/// children fill its block, the table's sorted order rearranged by
/// [`eytzinger_order`]; a file keeps its data.
pub open spec fn content_ok(table: Table, c: NodeContent, ord: Seq<usize>, m: int) -> bool {
    match c {
        NodeContent::Dir { child_index, child_count } => {
            &&& table.leaf(ord[m] as int) is None
            &&& child_count == table.children(ord[m] as int).len()
            &&& 1 <= child_index
            &&& child_index + child_count <= ord.len()
            &&& is_permutation(eytzinger_order(child_count as nat), child_count as nat)
            &&& forall|t: int|
                0 <= t < child_count ==> #[trigger] ord[child_index + t] == table.children(
                    ord[m] as int,
                )[eytzinger_order(child_count as nat)[t]]
        },
        NodeContent::File { data_index } => table.leaf(ord[m] as int) == Some(data_index),
    }
}

/// Position `m` lies in the block of directory `c`.
pub open spec fn in_dir_block(c: NodeContent, m: int) -> bool {
    match c {
        NodeContent::Dir { child_index, child_count } => child_index <= m < child_index + child_count,
        NodeContent::File { .. } => false,
    }
}

/// Position `m` lies in the block of some directory among the first `q`.
pub open spec fn in_block(contents: Seq<NodeContent>, q: int, m: int) -> bool {
    exists|p: int| 0 <= p < q && in_dir_block(#[trigger] contents[p], m)
}

/// The number of children of a node of the layout.
pub open spec fn child_count_of(c: NodeContent) -> nat {
    match c {
        NodeContent::Dir { child_count, .. } => child_count as nat,
        NodeContent::File { .. } => 0,
    }
}

/// The number of children of the first `m` positions.
pub open spec fn children_total(contents: Seq<NodeContent>, m: int) -> nat
    decreases m,
{
    if m <= 0 {
        0
    } else {
        children_total(contents, m - 1) + child_count_of(contents[m - 1])
    }
}

/// A directory's block starts right after the blocks of the positions
/// before it (and after the root).
pub open spec fn block_start_ok(contents: Seq<NodeContent>, m: int) -> bool {
    match contents[m] {
        NodeContent::Dir { child_index, .. } => child_index == 1 + children_total(contents, m),
        NodeContent::File { .. } => true,
    }
}

/// Appending keeps the totals of the positions already there.
pub proof fn lemma_children_total_push(contents: Seq<NodeContent>, x: NodeContent, m: int)
    requires
        0 <= m <= contents.len(),
    ensures
        children_total(contents.push(x), m) == children_total(contents, m),
    decreases m,
{
    if m > 0 {
        lemma_children_total_push(contents, x, m - 1);
        assert(contents.push(x)[m - 1] == contents[m - 1]);
    }
}

/// `ord` lists every node of the table once, the root first, and
/// `contents` describes each position as [`content_ok`] says.
pub open spec fn layout_ok(table: Table, contents: Seq<NodeContent>, ord: Seq<usize>) -> bool {
    &&& ord.len() >= 1
    &&& contents.len() == ord.len()
    &&& ord[0] == 0
    &&& ord.no_duplicates()
    &&& forall|m: int| 0 <= m < ord.len() ==> #[trigger] ord[m] < table.len()
    &&& forall|m: int| 0 <= m < ord.len() ==> content_ok(table, #[trigger] contents[m], ord, m)
    &&& forall|m: int| 1 <= m < ord.len() ==> #[trigger] in_block(contents, ord.len() as int, m)
    &&& forall|t: int| 0 <= t < table.len() ==> #[trigger] lists(ord, t)
    &&& forall|m: int| 0 <= m < contents.len() ==> #[trigger] block_start_ok(contents, m)
}

/// Whether `ord` holds `t`.
pub open spec fn lists(ord: Seq<usize>, t: int) -> bool {
    exists|m: int| 0 <= m < ord.len() && #[trigger] ord[m] == t
}

/// A list of distinct numbers below `n` has at most `n` of them.
proof fn lemma_distinct_below(s: Seq<usize>, n: int)
    requires
        s.no_duplicates(),
        0 <= n,
        forall|m: int| 0 <= m < s.len() ==> #[trigger] s[m] < n,
    ensures
        s.len() <= n,
{
    let t = s.map_values(|x: usize| x as int);
    assert(t.no_duplicates()) by {
        assert forall|i: int, j: int| 0 <= i < t.len() && 0 <= j < t.len() && i != j implies t[i] != t[j] by {
            assert(s[i] != s[j]);
        }
    }
    t.unique_seq_to_set();
    lemma_int_range(0, n);
    assert(t.to_set().subset_of(set_int_range(0, n))) by {
        assert forall|x: int| t.to_set().contains(x) implies set_int_range(0, n).contains(x) by {
            let i = choose|i: int| 0 <= i < t.len() && t[i] == x;
            assert(s[i] < n);
        }
    }
    lemma_len_subset(t.to_set(), set_int_range(0, n));
}

/// The children of a node are distinct.
proof fn lemma_children_distinct(table: Table, u: int)
    requires
        table.wf(),
        0 <= u < table.len(),
    ensures
        table.children(u).no_duplicates(),
{
    table.lemma_children(u);
    let ch = table.children(u);
    assert forall|a: int, b: int| 0 <= a < ch.len() && 0 <= b < ch.len() && a != b implies ch[a] != ch[b] by {
        if ch[a] == ch[b] {
            lemma_name_lt_irreflexive(table.name(ch[a] as int));
            if a < b {
                assert(name_lt(table.name(ch[a] as int), table.name(ch[b] as int)));
            } else {
                assert(name_lt(table.name(ch[b] as int), table.name(ch[a] as int)));
            }
        }
    }
}

/// Every node of the table is listed.
proof fn lemma_covered(table: Table, contents: Seq<NodeContent>, ord: Seq<usize>, t: int)
    requires
        table.wf(),
        0 <= t < table.len(),
        ord.len() >= 1,
        contents.len() == ord.len(),
        ord[0] == 0,
        forall|m: int| 0 <= m < ord.len() ==> #[trigger] ord[m] < table.len(),
        forall|m: int| 0 <= m < ord.len() ==> content_ok(table, #[trigger] contents[m], ord, m),
    ensures
        lists(ord, t),
    decreases table.path(t).len(),
{
    table.lemma_paths();
    if t == 0 {
        assert(ord[0] == t);
    } else {
        let pt = table.path(t);
        let pp = pt.drop_last();
        let u: int = if pp.len() == 0 {
            assert(table.path(0) =~= pp);
            0
        } else {
            table.lemma_closed();
            assert(pt.take(pp.len() as int) =~= pp);
            assert(table.tree().contains_key(pt));
            assert(table.tree().contains_key(pt.take(pp.len() as int)));
            assert(table.tree().contains_key(pp));
            let u = choose|u: int| 1 <= u < table.len() && #[trigger] table.path(u) == pp;
            lemma_covered(table, contents, ord, u);
            u
        };
        assert(table.path(u) == pp);
        assert(table.leaf(u) is None) by {
            if u > 0 {
                table.lemma_closed();
                assert(pt.take(pp.len() as int) =~= pp);
                assert(table.tree().contains_key(pt));
                assert(table.tree()[pt.take(pp.len() as int)] is None);
                assert(table.tree()[table.path(u)] == table.leaf(u));
            }
        }
        let mu = choose|m: int| 0 <= m < ord.len() && #[trigger] ord[m] == u;
        assert(content_ok(table, contents[mu], ord, mu));
        table.lemma_children(u);
        let k = choose|k: int| 0 <= k < table.children(u).len() && #[trigger] table.children(u)[k] == t;
        match contents[mu] {
            NodeContent::Dir { child_index, child_count } => {
                let perm = eytzinger_order(child_count as nat);
                assert(perm.contains(k));
                let j = choose|j: int| 0 <= j < perm.len() && perm[j] == k;
                assert(ord[child_index + j] == t);
            },
            NodeContent::File { .. } => {},
        }
    }
}

/// A copy of a list of node numbers.
fn copy_ids(v: &Vec<usize>) -> (r: Vec<usize>)
    ensures
        r@ == v@,
{
    let mut out: Vec<usize> = Vec::new();
    let mut i: usize = 0;
    while i < v.len()
        invariant
            i <= v@.len(),
            out@ == v@.take(i as int),
        decreases v@.len() - i,
    {
        out.push(v[i]);
        i = i + 1;
        assert(out@ =~= v@.take(i as int));
    }
    assert(v@.take(v@.len() as int) =~= v@);
    out
}

/// Lays the table out breadth first.
pub fn breadth_first(table: &Table) -> (r: (Vec<NodeContent>, Vec<usize>))
    requires
        table.wf(),
    ensures
        layout_ok(*table, r.0@, r.1@),
{
    let n = table.node_count();
    let mut ord: Vec<usize> = Vec::new();
    ord.push(0);
    let mut contents: Vec<NodeContent> = Vec::new();
    let mut q: usize = 0;
    proof {
        table.lemma_paths();
    }
    while q < ord.len()
        invariant
            table.wf(),
            n == table.len(),
            ord@.len() >= 1,
            ord@[0] == 0,
            contents@.len() == q,
            q <= ord@.len(),
            ord@.len() <= n,
            ord@.no_duplicates(),
            forall|m: int| 0 <= m < ord@.len() ==> #[trigger] ord@[m] < n,
            forall|m: int| 1 <= m < ord@.len() ==> #[trigger] ord@[m] >= 1,
            forall|m: int| 0 <= m < q ==> content_ok(*table, #[trigger] contents@[m], ord@, m),
            forall|m: int| 1 <= m < ord@.len() ==> #[trigger] in_block(contents@, q as int, m),
            ord@.len() == 1 + children_total(contents@, q as int),
            forall|m: int| 0 <= m < q ==> #[trigger] block_start_ok(contents@, m),
        decreases n - q,
    {
        let u = ord[q];
        let ghost ord0 = ord@;
        let ghost contents0 = contents@;
        match table.leaf_of(u) {
            Some(d) => {
                contents.push(NodeContent::File { data_index: d });
                proof {
                    assert forall|m: int| 0 <= m < q + 1 implies #[trigger] block_start_ok(contents@, m) by {
                        lemma_children_total_push(contents0, NodeContent::File { data_index: d }, m);
                        if m < q {
                            assert(contents@[m] == contents0[m]);
                            assert(block_start_ok(contents0, m));
                        }
                    }
                    lemma_children_total_push(contents0, NodeContent::File { data_index: d }, q as int);
                    assert(children_total(contents@, q + 1) == children_total(contents@, q as int));
                    assert forall|m: int| 0 <= m < q + 1 implies content_ok(
                        *table,
                        #[trigger] contents@[m],
                        ord@,
                        m,
                    ) by {
                        if m < q {
                            assert(contents@[m] == contents0[m]);
                        }
                    }
                    assert forall|m: int| 1 <= m < ord@.len() implies #[trigger] in_block(
                        contents@,
                        q + 1,
                        m,
                    ) by {
                        assert(in_block(contents0, q as int, m));
                        let p = choose|p: int|
                            0 <= p < q && in_dir_block(#[trigger] contents0[p], m);
                        assert(contents@[p] == contents0[p]);
                    }
                }
            },
            None => {
                let mut ch = copy_ids(table.children_of(u));
                let ghost sorted = ch@;
                eytzingerize(&mut ch);
                let ghost perm = eytzinger_order(ch@.len() as nat);
                let ci = ord.len();
                proof {
                    table.lemma_children(u as int);
                    lemma_children_distinct(*table, u as int);
                    assert forall|k: int| 0 <= k < ch@.len() implies 1 <= #[trigger] ch@[k] < n
                        && table.path(ch@[k] as int).drop_last() == table.path(u as int) by {
                        assert(0 <= perm[k] < ch@.len());
                        assert(ch@[k] == sorted[perm[k]]);
                        assert(table.path(sorted[perm[k]] as int) == table.path(u as int).push(
                            table.name(sorted[perm[k]] as int),
                        ));
                    }
                    assert(ch@.no_duplicates()) by {
                        assert forall|i: int, j: int|
                            0 <= i < ch@.len() && 0 <= j < ch@.len() && i != j implies ch@[i] != ch@[j] by {
                            assert(ch@[i] == sorted[perm[i]]);
                            assert(ch@[j] == sorted[perm[j]]);
                            assert(perm[i] != perm[j]);
                        }
                    }
                }
                let mut t: usize = 0;
                while t < ch.len()
                    invariant
                        table.wf(),
                        n == table.len(),
                        u == ord0[q as int],
                        sorted == table.children(u as int),
                        ch@.len() == sorted.len(),
                        perm == eytzinger_order(ch@.len() as nat),
                        is_permutation(perm, ch@.len() as nat),
                        forall|k: int| 0 <= k < ch@.len() ==> #[trigger] ch@[k] == sorted[perm[k]],
                        ch@.no_duplicates(),
                        q < ord0.len(),
                        ci == ord0.len(),
                        t <= ch@.len(),
                        ord@.len() == ci + t,
                        ord@.subrange(0, ci as int) == ord0,
                        forall|m: int| ci <= m < ci + t ==> #[trigger] ord@[m] == ch@[m - ci],
                        ord0.no_duplicates(),
                        ord@.no_duplicates(),
                        ord0[0] == 0,
                        forall|m: int| 0 <= m < ord0.len() ==> #[trigger] ord0[m] < n,
                        contents@ == contents0,
                        contents0.len() == q,
                        ci == 1 + children_total(contents0, q as int),
                        forall|m: int| 0 <= m < q ==> #[trigger] block_start_ok(contents0, m),
                        forall|m: int| 0 <= m < q ==> content_ok(*table, #[trigger] contents0[m], ord0, m),
                        forall|m: int| 1 <= m < ord0.len() ==> #[trigger] in_block(contents0, q as int, m),
                        forall|k: int|
                            0 <= k < ch@.len() ==> 1 <= #[trigger] ch@[k] < n && table.path(
                                ch@[k] as int,
                            ).drop_last() == table.path(u as int),
                    decreases ch@.len() - t,
                {
                    let c = ch[t];
                    proof {
                        assert forall|m: int| 0 <= m < ord@.len() implies #[trigger] ord@[m] != c by {
                            if m >= ci {
                                assert(ord@[m] == ch@[m - ci]);
                                assert(m - ci != t);
                            } else {
                                assert(ord@[m] == ord0[m]);
                                if m >= 1 && ord0[m] == c {
                                    assert(in_block(contents0, q as int, m));
                                    let p = choose|p: int|
                                        0 <= p < q && in_dir_block(#[trigger] contents0[p], m);
                                    assert(content_ok(*table, contents0[p], ord0, p));
                                    match contents0[p] {
                                        NodeContent::Dir { child_index, child_count } => {
                                            let w = ord0[p] as int;
                                            table.lemma_children(w);
                                            let pw = eytzinger_order(child_count as nat);
                                            assert(0 <= pw[m - child_index] < child_count);
                                            assert(ord0[child_index + (m - child_index)] == table.children(
                                                w,
                                            )[pw[m - child_index]]);
                                            assert(table.path(c as int).drop_last() == table.path(w));
                                            table.lemma_paths();
                                            assert(w == u as int);
                                            assert(ord0[p] == ord0[q as int]);
                                        },
                                        NodeContent::File { .. } => {},
                                    }
                                }
                            }
                        }
                    }
                    let ghost before = ord@;
                    ord.push(c);
                    t = t + 1;
                    proof {
                        assert(ord@.subrange(0, ci as int) =~= ord0);
                        assert forall|i: int, j: int|
                            0 <= i < ord@.len() && 0 <= j < ord@.len() && i != j implies ord@[i]
                            != ord@[j] by {
                            if i < before.len() && j < before.len() {
                                assert(ord@[i] == before[i] && ord@[j] == before[j]);
                            } else if i < before.len() {
                                assert(ord@[i] == before[i]);
                            } else if j < before.len() {
                                assert(ord@[j] == before[j]);
                            }
                        }
                        assert forall|m: int| ci <= m < ci + t implies #[trigger] ord@[m] == ch@[m - ci] by {
                            if m < before.len() {
                                assert(ord@[m] == before[m]);
                            }
                        }
                    }
                }
                contents.push(NodeContent::Dir { child_index: ci, child_count: ch.len() });
                    proof {
                        let x = NodeContent::Dir { child_index: ci, child_count: ch.len() };
                        assert forall|m: int| 0 <= m < q + 1 implies #[trigger] block_start_ok(contents@, m) by {
                            lemma_children_total_push(contents0, x, m);
                            if m < q {
                                assert(contents@[m] == contents0[m]);
                                assert(block_start_ok(contents0, m));
                            }
                        }
                        lemma_children_total_push(contents0, x, q as int);
                        assert(children_total(contents@, q + 1) == children_total(contents@, q as int) + ch@.len());
                        assert(ord@.subrange(0, ci as int) == ord0);
                        assert forall|k: int| 0 <= k < ch@.len() implies #[trigger] ord@[ci + k] == sorted[perm[k]] by {
                            assert(ord@[ci + k] == ch@[(ci + k) - ci]);
                        }
                        assert forall|m: int| 0 <= m < ci implies #[trigger] ord@[m] == ord0[m] by {
                        assert(ord@.subrange(0, ci as int)[m] == ord@[m]);
                    }
                    assert forall|m: int| 0 <= m < q + 1 implies content_ok(
                        *table,
                        #[trigger] contents@[m],
                        ord@,
                        m,
                    ) by {
                        if m < q {
                            assert(contents@[m] == contents0[m]);
                            assert(content_ok(*table, contents0[m], ord0, m));
                            match contents0[m] {
                                NodeContent::Dir { child_index, child_count } => {
                                    assert forall|k: int| 0 <= k < child_count implies #[trigger] ord@[
                                        child_index + k
                                    ] == table.children(ord@[m] as int)[eytzinger_order(
                                        child_count as nat,
                                    )[k]] by {
                                        assert(ord@[child_index + k] == ord0[child_index + k]);
                                    }
                                },
                                NodeContent::File { .. } => {},
                            }
                        } else {
                            assert(ord@[q as int] == u);
                        }
                    }
                    assert forall|m: int| 1 <= m < ord@.len() implies #[trigger] in_block(
                        contents@,
                        q + 1,
                        m,
                    ) by {
                        if m < ci {
                            assert(in_block(contents0, q as int, m));
                            let p = choose|p: int|
                                0 <= p < q && in_dir_block(#[trigger] contents0[p], m);
                            assert(contents@[p] == contents0[p]);
                        } else {
                            assert(in_dir_block(contents@[q as int], m));
                        }
                    }
                    assert forall|m: int| 1 <= m < ord@.len() implies #[trigger] ord@[m] >= 1 by {
                        if m >= ci {
                            assert(ord@[m] == ch@[m - ci]);
                        } else {
                            assert(ord@[m] == ord0[m]);
                        }
                    }
                }
            },
        }
        proof {
            lemma_distinct_below(ord@, n as int);
        }
        q = q + 1;
    }
    proof {
        assert forall|t: int| 0 <= t < table.len() implies #[trigger] lists(ord@, t) by {
            lemma_covered(*table, contents@, ord@, t);
        }
    }
    (contents, ord)
}

} // verus!
