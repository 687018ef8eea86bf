//! The node table behind a filesystem: every directory and file is a node
//! with a parent, a name and, for a file, the index of its data; each
//! directory lists its children sorted by name.
//!
//! Its abstract view is a map from a node's path (its names from the root
//! down) to `None` for a directory or `Some(data index)` for a file; the
//! root, whose path is empty, is not in the map.

use vstd::prelude::*;

use crate::filesystem::path::views;

use crate::filesystem::names::{
    compare_names, lemma_name_lt_asymmetric, lemma_name_lt_irreflexive, lemma_name_lt_transitive,
    name_lt, NameOrder,
};

verus! {

pub type Path = Seq<Seq<char>>;

pub type Tree = Map<Seq<Seq<char>>, Option<u32>>;

/// Insertion of the file at `base` + `rest` with data `d`, one component
/// at a time: an existing file on the way ends it, an existing directory
/// is entered, a missing name is created (a directory unless it is the
/// last one).
pub open spec fn insert_at(m: Tree, base: Path, rest: Path, d: u32) -> Tree
    decreases rest.len(),
{
    if rest.len() == 0 {
        m
    } else {
        let q = base.push(rest[0]);
        if m.contains_key(q) {
            if m[q] is Some {
                m
            } else {
                insert_at(m, q, rest.drop_first(), d)
            }
        } else if rest.len() == 1 {
            m.insert(q, Some(d))
        } else {
            insert_at(m.insert(q, None), q, rest.drop_first(), d)
        }
    }
}

/// Whether some proper prefix of `p` is a file of `m`.
pub open spec fn file_above(m: Tree, p: Path) -> bool {
    exists|k: int| 0 < k < p.len() && #[trigger] m.contains_key(p.take(k)) && m[p.take(k)] is Some
}

/// The number of bytes of `c` in UTF-8.
pub open spec fn char_width(c: char) -> nat {
    if (c as u32) < 0x80 {
        1
    } else if (c as u32) < 0x800 {
        2
    } else if (c as u32) < 0x1_0000 {
        3
    } else {
        4
    }
}

/// The number of bytes of `s` in UTF-8.
pub open spec fn utf8_len(s: Seq<char>) -> nat
    decreases s.len(),
{
    if s.len() == 0 {
        0
    } else {
        utf8_len(s.drop_last()) + char_width(s.last())
    }
}

/// Whether each name that inserting `p` into `m` passes, up to the first
/// file on the way, is at most 255 bytes long.
pub open spec fn names_fit_at(m: Tree, p: Path) -> bool {
    forall|i: int|
        0 <= i < p.len() && !file_above(m, p.take(i + 1)) ==> utf8_len(#[trigger] p[i]) <= 255
}

/// A prefix of a string is no longer in UTF-8 than the string.
pub proof fn lemma_utf8_len_prefix(s: Seq<char>, k: int)
    requires
        0 <= k <= s.len(),
    ensures
        utf8_len(s.take(k)) <= utf8_len(s),
    decreases s.len(),
{
    if k < s.len() {
        lemma_utf8_len_prefix(s.drop_last(), k);
        assert(s.drop_last().take(k) =~= s.take(k));
    } else {
        assert(s.take(k) =~= s);
    }
}

/// Whether `c` is at most 255 bytes long in UTF-8.
pub fn name_fits(c: &Vec<char>) -> (b: bool)
    ensures
        b == (utf8_len(c@) <= 255),
{
    let mut total: usize = 0;
    let mut i: usize = 0;
    assert(c@.take(0) =~= Seq::<char>::empty());
    while i < c.len()
        invariant
            i <= c@.len(),
            total == utf8_len(c@.take(i as int)),
            total <= 255,
        decreases c@.len() - i,
    {
        let x = c[i] as u32;
        let w: usize = if x < 0x80 {
            1
        } else if x < 0x800 {
            2
        } else if x < 0x1_0000 {
            3
        } else {
            4
        };
        assert(c@.take(i + 1).drop_last() =~= c@.take(i as int));
        total = total + w;
        if total > 255 {
            proof {
                lemma_utf8_len_prefix(c@, i + 1);
            }
            return false;
        }
        i = i + 1;
    }
    assert(c@.take(i as int) =~= c@);
    true
}

/// Every proper prefix of a node is a directory.
pub open spec fn tree_closed(m: Tree) -> bool {
    forall|p: Path, k: int|
        #![trigger m.contains_key(p), p.take(k)]
        m.contains_key(p) && 0 < k < p.len() ==> m.contains_key(p.take(k)) && m[p.take(k)] is None
}

/// A data index moved up by `off`.
pub open spec fn shift(v: Option<u32>, off: u32) -> Option<u32> {
    match v {
        Some(d) => Some((d + off) as u32),
        None => None,
    }
}

/// The nodes of `a`, and those of `b` that `a` has no node at and no file
/// above, their data moved up by `off`.
pub open spec fn merge_tree(a: Tree, b: Tree, off: u32) -> Tree {
    Map::new(
        |p: Path| a.contains_key(p) || (b.contains_key(p) && !file_above(a, p)),
        |p: Path|
            if a.contains_key(p) {
                a[p]
            } else {
                shift(b[p], off)
            },
    )
}

/// Every file's data index, moved up by `off`, stays below `bound`.
pub open spec fn data_below(m: Tree, off: int, bound: int) -> bool {
    forall|p: Path| #[trigger] m.contains_key(p) && m[p] is Some ==> m[p]->0 + off < bound
}


/// Whether `p` is a prefix of `q`.
pub open spec fn is_prefix(p: Path, q: Path) -> bool {
    p.len() <= q.len() && q.take(p.len() as int) == p
}

/// Whether one path is a prefix of the other.
pub open spec fn comparable(p: Path, q: Path) -> bool {
    is_prefix(p, q) || is_prefix(q, p)
}

/// What inserting changes: nodes already there keep their data; new nodes
/// lie along `base` + `rest`, below `base`, and the only new file is
/// `base` + `rest`, with data `d`.
pub proof fn lemma_insert_at_shape(m: Tree, base: Path, rest: Path, d: u32)
    ensures
        forall|q: Path| #[trigger]
            m.contains_key(q) ==> insert_at(m, base, rest, d).contains_key(q) && insert_at(
                m,
                base,
                rest,
                d,
            )[q] == m[q],
        forall|q: Path|
            #[trigger] insert_at(m, base, rest, d).contains_key(q) && !m.contains_key(q) ==> base.len()
                < q.len() <= base.len() + rest.len() && q == (base + rest).take(q.len() as int),
        forall|q: Path|
            #[trigger] insert_at(m, base, rest, d).contains_key(q) && !m.contains_key(q) && insert_at(
                m,
                base,
                rest,
                d,
            )[q] is Some ==> q == base + rest && insert_at(m, base, rest, d)[q] == Some(d),
    decreases rest.len(),
{
    if rest.len() > 0 {
        let q0 = base.push(rest[0]);
        let tail = rest.drop_first();
        assert(q0 + tail =~= base + rest);
        if m.contains_key(q0) {
            if m[q0] is None {
                lemma_insert_at_shape(m, q0, tail, d);
                assert forall|q: Path|
                    #[trigger] insert_at(m, base, rest, d).contains_key(q) && !m.contains_key(
                        q,
                    ) implies base.len() < q.len() <= base.len() + rest.len() && q == (base
                    + rest).take(q.len() as int) by {
                    assert((q0 + tail).take(q.len() as int) == (base + rest).take(q.len() as int));
                }
            }
        } else if rest.len() == 1 {
            assert(q0 =~= base + rest);
            assert forall|q: Path|
                #[trigger] insert_at(m, base, rest, d).contains_key(q) && !m.contains_key(
                    q,
                ) implies base.len() < q.len() <= base.len() + rest.len() && q == (base + rest).take(
                q.len() as int,
            ) by {
                assert(q == q0);
                assert((base + rest).take(q.len() as int) =~= base + rest);
            }
        } else {
            let m1 = m.insert(q0, None);
            lemma_insert_at_shape(m1, q0, tail, d);
            assert forall|q: Path| #[trigger] m.contains_key(q) implies insert_at(
                m,
                base,
                rest,
                d,
            ).contains_key(q) && insert_at(m, base, rest, d)[q] == m[q] by {
                assert(m1.contains_key(q));
            }
            assert forall|q: Path|
                #[trigger] insert_at(m, base, rest, d).contains_key(q) && !m.contains_key(
                    q,
                ) implies base.len() < q.len() <= base.len() + rest.len() && q == (base + rest).take(
                q.len() as int,
            ) by {
                if q == q0 {
                    assert((base + rest).take(q.len() as int) =~= q0);
                } else {
                    assert((q0 + tail).take(q.len() as int) == (base + rest).take(q.len() as int));
                }
            }
        }
    }
}

/// Inserting where nothing lies at `base` + `rest` and no file lies on the
/// way stores the file there.
pub proof fn lemma_insert_at_fresh(m: Tree, base: Path, rest: Path, d: u32)
    requires
        rest.len() > 0,
        !m.contains_key(base + rest),
        forall|k: int|
            base.len() < k < base.len() + rest.len() && #[trigger] m.contains_key((base + rest).take(k))
                ==> m[(base + rest).take(k)] is None,
    ensures
        insert_at(m, base, rest, d).contains_key(base + rest),
        insert_at(m, base, rest, d)[base + rest] == Some(d),
    decreases rest.len(),
{
    let q0 = base.push(rest[0]);
    let tail = rest.drop_first();
    assert(q0 + tail =~= base + rest);
    assert((base + rest).take(base.len() as int + 1) =~= q0);
    if rest.len() == 1 {
        assert(q0 =~= base + rest);
    } else {
        assert(m.contains_key(q0) ==> m[q0] is None);
        let m1 = if m.contains_key(q0) {
            m
        } else {
            m.insert(q0, None)
        };
        assert forall|k: int|
            q0.len() < k < q0.len() + tail.len() && #[trigger] m1.contains_key((q0 + tail).take(k))
                implies m1[(q0 + tail).take(k)] is None by {
            assert((q0 + tail).take(k) != q0);
            assert(m.contains_key((base + rest).take(k)));
        }
        assert(!m1.contains_key(q0 + tail));
        lemma_insert_at_fresh(m1, q0, tail, d);
    }
}


/// Merging keeps every node of the first tree, with its data.
pub proof fn lemma_merge_keeps_first(a: Tree, b: Tree, off: u32)
    ensures
        forall|p: Path| #[trigger]
            a.contains_key(p) ==> merge_tree(a, b, off).contains_key(p) && merge_tree(a, b, off)[p]
                == a[p],
{
}

/// Merging with an empty tree, on either side, changes nothing (the data
/// of a second tree is moved by `off`, nothing when it comes first).
pub proof fn lemma_merge_empty(a: Tree, off: u32)
    ensures
        merge_tree(a, Tree::empty(), off) == a,
        merge_tree(Tree::empty(), a, 0) == a,
{
    assert(merge_tree(a, Tree::empty(), off) =~= a);
    assert(merge_tree(Tree::empty(), a, 0) =~= a) by {
        assert forall|p: Path| #[trigger] a.contains_key(p) implies !file_above(Tree::empty(), p)
            && shift(a[p], 0) == a[p] by {}
    }
}

pub struct Table {
    parents: Vec<usize>,
    names: Vec<Vec<char>>,
    leaves: Vec<Option<u32>>,
    children: Vec<Vec<usize>>,
    paths: Ghost<Seq<Path>>,
    tree: Ghost<Tree>,
}

impl Table {
    pub closed spec fn len(&self) -> nat {
        self.names@.len()
    }

    pub closed spec fn path(&self, i: int) -> Path {
        self.paths@[i]
    }

    pub closed spec fn leaf(&self, i: int) -> Option<u32> {
        self.leaves@[i]
    }

    pub closed spec fn tree(&self) -> Tree {
        self.tree@
    }

    pub closed spec fn name(&self, i: int) -> Seq<char> {
        self.names@[i]@
    }

    /// The children of `u`, sorted by name.
    pub closed spec fn children(&self, u: int) -> Seq<usize> {
        self.children@[u]@
    }

    spec fn parent_ok(&self, i: int) -> bool {
        let p = self.parents@[i] as int;
        &&& p < i
        &&& self.leaves@[p] is None
        &&& self.paths@[i] == self.paths@[p].push(self.names@[i]@)
    }

    spec fn child_name(&self, u: int, m: int) -> Seq<char> {
        self.names@[self.children@[u][m] as int]@
    }

    spec fn children_ok(&self, u: int) -> bool {
        &&& forall|m: int|
            0 <= m < self.children@[u].len() ==> 1 <= #[trigger] self.children@[u][m] < self.len()
                && self.parents@[self.children@[u][m] as int] == u
        &&& forall|a: int, b: int|
            0 <= a < b < self.children@[u].len() ==> name_lt(
                #[trigger] self.child_name(u, a),
                #[trigger] self.child_name(u, b),
            )
    }

    spec fn listed(&self, k: int) -> bool {
        exists|m: int|
            0 <= m < self.children@[self.parents@[k] as int].len() && #[trigger] self.children@[
                self.parents@[k] as int
            ][m] == k
    }

    pub closed spec fn wf(&self) -> bool {
        let n = self.len();
        &&& n >= 1
        &&& self.parents@.len() == n
        &&& self.leaves@.len() == n
        &&& self.children@.len() == n
        &&& self.paths@.len() == n
        &&& self.paths@[0] == Seq::<Seq<char>>::empty()
        &&& self.leaves@[0] is None
        &&& self.names@[0]@.len() == 0
        &&& forall|i: int| 1 <= i < n ==> #[trigger] self.parent_ok(i)
        &&& forall|i: int, j: int|
            0 <= i < n && 0 <= j < n && i != j ==> #[trigger] self.paths@[i] != #[trigger] self.paths@[j]
        &&& forall|u: int| 0 <= u < n ==> #[trigger] self.children_ok(u)
        &&& forall|k: int| 1 <= k < n ==> #[trigger] self.listed(k)
        &&& forall|p: Path| #[trigger]
            self.tree@.contains_key(p) <==> exists|i: int| 1 <= i < n && #[trigger] self.paths@[i] == p
        &&& forall|i: int| 1 <= i < n ==> #[trigger] self.tree@[self.paths@[i]] == self.leaves@[i]
    }

    /// The place of `c` among the sorted children of `u`.
    pub closed spec fn fits(&self, u: int, pos: int, c: Seq<char>) -> bool {
        &&& 0 <= pos <= self.children@[u].len()
        &&& forall|m: int| 0 <= m < pos ==> name_lt(#[trigger] self.child_name(u, m), c)
        &&& forall|m: int|
            pos <= m < self.children@[u].len() ==> name_lt(c, #[trigger] self.child_name(u, m))
    }

    /// The table with just the root.
    pub fn new() -> (t: Table)
        ensures
            t.wf(),
            t.len() == 1,
            t.tree() == Tree::empty(),
    {
        let mut parents = Vec::new();
        parents.push(0);
        let mut names = Vec::new();
        names.push(Vec::new());
        let mut leaves = Vec::new();
        leaves.push(None);
        let mut children = Vec::new();
        children.push(Vec::new());
        let ghost root_paths = seq![Seq::<Seq<char>>::empty()];
        let t = Table {
            parents,
            names,
            leaves,
            children,
            paths: Ghost(root_paths),
            tree: Ghost(Tree::empty()),
        };
        assert(t.children_ok(0));
        t
    }

    pub fn node_count(&self) -> (n: usize)
        ensures
            n == self.len(),
    {
        self.names.len()
    }

    pub fn leaf_of(&self, i: usize) -> (r: Option<u32>)
        requires
            self.wf(),
            i < self.len(),
        ensures
            r == self.leaf(i as int),
    {
        self.leaves[i]
    }

    pub fn name_of(&self, i: usize) -> (r: &Vec<char>)
        requires
            self.wf(),
            i < self.len(),
        ensures
            i == 0 ==> r@.len() == 0,
            i > 0 ==> r@ == self.path(i as int).last(),
    {
        proof {
            if i > 0 {
                assert(self.parent_ok(i as int));
            }
        }
        &self.names[i]
    }

    /// The proper prefixes of a node's path are directories.
    proof fn lemma_ancestor(&self, i: int, k: int)
        requires
            self.wf(),
            1 <= i < self.len(),
            0 < k < self.paths@[i].len(),
        ensures
            self.tree@.contains_key(self.paths@[i].take(k)),
            self.tree@[self.paths@[i].take(k)] is None,
        decreases self.paths@[i].len(),
    {
        assert(self.parent_ok(i));
        let p = self.parents@[i] as int;
        let pp = self.paths@[p];
        assert(self.paths@[i].drop_last() =~= pp);
        if p == 0 {
            assert(pp.len() == 0);
        } else if k == pp.len() {
            assert(self.paths@[i].take(k) =~= pp);
        } else {
            assert(self.paths@[p].len() >= 1) by {
                assert(self.parent_ok(p));
            }
            self.lemma_ancestor(p, k);
            assert(self.paths@[i].take(k) =~= pp.take(k));
        }
    }

    /// Every proper prefix of a node of the table is a directory of it.
    pub proof fn lemma_closed(&self)
        requires
            self.wf(),
        ensures
            tree_closed(self.tree()),
    {
        assert forall|p: Path, k: int|
            #![trigger self.tree@.contains_key(p), p.take(k)]
            self.tree@.contains_key(p) && 0 < k < p.len() implies self.tree@.contains_key(p.take(k))
            && self.tree@[p.take(k)] is None by {
            let i = choose|i: int| 1 <= i < self.len() && #[trigger] self.paths@[i] == p;
            self.lemma_ancestor(i, k);
        }
    }

    /// Node paths are not empty, but for the root's.
    pub proof fn lemma_paths(&self)
        requires
            self.wf(),
        ensures
            self.path(0).len() == 0,
            forall|i: int| 1 <= i < self.len() ==> #[trigger] self.path(i).len() >= 1,
            forall|i: int, j: int|
                0 <= i < self.len() && 0 <= j < self.len() && i != j ==> #[trigger] self.path(i)
                    != #[trigger] self.path(j),
            forall|p: Path| #[trigger]
                self.tree().contains_key(p) <==> exists|i: int|
                    1 <= i < self.len() && #[trigger] self.path(i) == p,
            forall|i: int| 1 <= i < self.len() ==> #[trigger] self.tree()[self.path(i)] == self.leaf(i),
            forall|i: int| 1 <= i < self.len() ==> #[trigger] self.name(i) == self.path(i).last(),
            self.name(0).len() == 0,
            self.leaf(0) is None,
            self.len() >= 1,
    {
        assert forall|i: int| 1 <= i < self.len() implies #[trigger] self.name(i) == self.path(i).last() by {
            assert(self.parent_ok(i));
        }
        assert forall|i: int| 1 <= i < self.len() implies #[trigger] self.path(i).len() >= 1 by {
            assert(self.parent_ok(i));
        }
        assert forall|p: Path| #[trigger]
            self.tree().contains_key(p) <==> exists|i: int|
                1 <= i < self.len() && #[trigger] self.path(i) == p by {
            if self.tree().contains_key(p) {
                let i = choose|i: int| 1 <= i < self.len() && #[trigger] self.paths@[i] == p;
                assert(self.path(i) == p);
            }
            if exists|i: int| 1 <= i < self.len() && #[trigger] self.path(i) == p {
                let i = choose|i: int| 1 <= i < self.len() && #[trigger] self.path(i) == p;
                assert(self.paths@[i] == p);
            }
        }
    }

    /// No node is at `path(u)` + `c` when `c` falls between the children.
    #[verifier::spinoff_prover]
    proof fn lemma_no_child(&self, u: int, pos: int, c: Seq<char>)
        requires
            self.wf(),
            0 <= u < self.len(),
            self.fits(u, pos, c),
        ensures
            forall|k: int| 0 <= k < self.len() ==> #[trigger] self.paths@[k] != self.paths@[u].push(c),
    {
        assert forall|k: int| 0 <= k < self.len() implies #[trigger] self.paths@[k] != self.paths@[
            u
        ].push(c) by {
            if k >= 1 && self.paths@[k] == self.paths@[u].push(c) {
                assert(self.parent_ok(k));
                let pk = self.parents@[k] as int;
                assert(self.paths@[k].drop_last() =~= self.paths@[pk]);
                assert(self.paths@[k].drop_last() =~= self.paths@[u]);
                assert(pk == u);
                assert(self.listed(k));
                let m = choose|m: int|
                    0 <= m < self.children@[pk].len() && #[trigger] self.children@[pk][m] == k;
                assert(self.child_name(u, m) == self.names@[k]@);
                assert(self.names@[k]@ == self.paths@[k].last());
                assert(self.names@[k]@ == c);
                lemma_name_lt_irreflexive(c);
                if m < pos {
                    assert(name_lt(self.child_name(u, m), c));
                } else {
                    assert(name_lt(c, self.child_name(u, m)));
                }
            }
        }
    }

    /// The child of `u` named `c`, or where it would go.
    pub fn find_child(&self, u: usize, c: &Vec<char>) -> (r: Result<usize, usize>)
        requires
            self.wf(),
            u < self.len(),
        ensures
            match r {
                Ok(k) => 1 <= k < self.len() && self.path(k as int) == self.path(u as int).push(
                    c@,
                ),
                Err(pos) => self.fits(u as int, pos as int, c@) && forall|k: int|
                    0 <= k < self.len() ==> #[trigger] self.path(k) != self.path(u as int).push(c@),
            },
    {
        let ch = &self.children[u];
        let mut lo: usize = 0;
        let mut hi: usize = ch.len();
        proof {
            assert(self.children_ok(u as int));
        }
        while lo < hi
            invariant
                self.wf(),
                u < self.len(),
                ch@ == self.children@[u as int]@,
                self.children_ok(u as int),
                0 <= lo <= hi <= ch@.len(),
                forall|m: int| 0 <= m < lo ==> name_lt(#[trigger] self.child_name(u as int, m), c@),
                forall|m: int|
                    hi <= m < ch@.len() ==> name_lt(c@, #[trigger] self.child_name(u as int, m)),
            decreases hi - lo,
        {
            let mid = lo + (hi - lo) / 2;
            let k = ch[mid];
            assert(1 <= k < self.len());
            let o = compare_names(&self.names[k], c);
            match o {
                NameOrder::Same => {
                    proof {
                        assert(self.parent_ok(k as int));
                        assert(self.parents@[k as int] == u);
                    }
                    return Ok(k);
                },
                NameOrder::Before => {
                    proof {
                        assert forall|m: int| 0 <= m < mid + 1 implies name_lt(
                            #[trigger] self.child_name(u as int, m),
                            c@,
                        ) by {
                            if m < mid {
                                assert(name_lt(
                                    self.child_name(u as int, m),
                                    self.child_name(u as int, mid as int),
                                ));
                                lemma_name_lt_transitive(
                                    self.child_name(u as int, m),
                                    self.child_name(u as int, mid as int),
                                    c@,
                                );
                            }
                        }
                    }
                    lo = mid + 1;
                },
                NameOrder::After => {
                    proof {
                        assert forall|m: int| mid <= m < ch@.len() implies name_lt(
                            c@,
                            #[trigger] self.child_name(u as int, m),
                        ) by {
                            if m > mid {
                                assert(name_lt(
                                    self.child_name(u as int, mid as int),
                                    self.child_name(u as int, m),
                                ));
                                lemma_name_lt_transitive(
                                    c@,
                                    self.child_name(u as int, mid as int),
                                    self.child_name(u as int, m),
                                );
                            }
                        }
                    }
                    hi = mid;
                },
            }
        }
        proof {
            self.lemma_no_child(u as int, lo as int, c@);
        }
        Err(lo)
    }

    /// Adds the node `name` under the directory `u`, at its place `pos`
    /// among the children.
    pub fn add_child(&mut self, u: usize, pos: usize, name: Vec<char>, leaf: Option<u32>) -> (k:
        usize)
        requires
            old(self).wf(),
            u < old(self).len(),
            old(self).leaf(u as int) is None,
            old(self).fits(u as int, pos as int, name@),
            forall|i: int|
                0 <= i < old(self).len() ==> #[trigger] old(self).path(i) != old(self).path(
                    u as int,
                ).push(name@),
        ensures
            final(self).wf(),
            k == old(self).len(),
            final(self).len() == old(self).len() + 1,
            final(self).path(k as int) == old(self).path(u as int).push(name@),
            final(self).leaf(k as int) == leaf,
            forall|i: int|
                0 <= i < old(self).len() ==> #[trigger] final(self).path(i) == old(self).path(i)
                    && final(self).leaf(i) == old(self).leaf(i),
            final(self).tree() == old(self).tree().insert(
                old(self).path(u as int).push(name@),
                leaf,
            ),
    {
        let k = self.names.len();
        let ghost q = self.paths@[u as int].push(name@);
        let ghost c = name@;
        self.names.push(name);
        self.parents.push(u);
        self.leaves.push(leaf);
        self.children.push(Vec::new());
        let mut ch: Vec<usize> = Vec::new();
        self.children.set_and_swap(u, &mut ch);
        let ghost ch0 = ch@;
        ch.insert(pos, k);
        self.children.set_and_swap(u, &mut ch);
        self.paths = Ghost(self.paths@.push(q));
        self.tree = Ghost(self.tree@.insert(q, leaf));
        proof {
            let n = self.len();
            assert(ch0 == old(self).children@[u as int]@);
            assert(self.children@[u as int]@ == ch0.insert(pos as int, k));
            assert forall|i: int| 0 <= i < k implies #[trigger] self.names@[i] == old(self).names@[
                i
            ] && self.parents@[i] == old(self).parents@[i] && self.leaves@[i] == old(
                self,
            ).leaves@[i] && self.paths@[i] == old(self).paths@[i] by {}
            assert forall|i: int| 1 <= i < n implies #[trigger] self.parent_ok(i) by {
                if i < k {
                    assert(old(self).parent_ok(i));
                }
            }
            assert forall|i: int, j: int|
                0 <= i < n && 0 <= j < n && i != j implies #[trigger] self.paths@[i]
                != #[trigger] self.paths@[j] by {
                if i == k {
                    assert(old(self).path(j) != q);
                } else if j == k {
                    assert(old(self).path(i) != q);
                }
            }
            assert forall|v: int| 0 <= v < n implies #[trigger] self.children_ok(v) by {
                if v == k {
                } else if v == u {
                    assert(old(self).children_ok(v));
                    let s = self.children@[v]@;
                    assert forall|m: int| 0 <= m < s.len() implies 1 <= #[trigger] s[m] < n
                        && self.parents@[s[m] as int] == v by {
                        if m < pos {
                            assert(s[m] == ch0[m]);
                        } else if m > pos {
                            assert(s[m] == ch0[m - 1]);
                        }
                    }
                    assert forall|a: int, b: int|
                        0 <= a < b < s.len() implies name_lt(
                        #[trigger] self.child_name(v, a),
                        #[trigger] self.child_name(v, b),
                    ) by {
                        if a < pos {
                            assert(self.child_name(v, a) == old(self).child_name(v, a));
                        } else if a > pos {
                            assert(self.child_name(v, a) == old(self).child_name(v, a - 1));
                        } else {
                            assert(self.child_name(v, a) == c);
                        }
                        if b < pos {
                            assert(self.child_name(v, b) == old(self).child_name(v, b));
                        } else if b > pos {
                            assert(self.child_name(v, b) == old(self).child_name(v, b - 1));
                        } else {
                            assert(self.child_name(v, b) == c);
                        }
                        if a != pos && b != pos {
                            if a < pos && b > pos {
                                assert(name_lt(old(self).child_name(v, a), c));
                                assert(name_lt(c, old(self).child_name(v, b - 1)));
                                lemma_name_lt_transitive(
                                    old(self).child_name(v, a),
                                    c,
                                    old(self).child_name(v, b - 1),
                                );
                            }
                        }
                    }
                } else {
                    assert(old(self).children_ok(v));
                    assert(self.children@[v] == old(self).children@[v]);
                    assert forall|a: int, b: int|
                        0 <= a < b < self.children@[v].len() implies name_lt(
                        #[trigger] self.child_name(v, a),
                        #[trigger] self.child_name(v, b),
                    ) by {
                        assert(self.child_name(v, a) == old(self).child_name(v, a));
                        assert(self.child_name(v, b) == old(self).child_name(v, b));
                    }
                }
            }
            assert forall|j: int| 1 <= j < n implies #[trigger] self.listed(j) by {
                if j == k {
                    assert(self.parents@[j] == u);
                    assert(self.children@[self.parents@[j] as int][pos as int] == k);
                } else {
                    assert(old(self).listed(j));
                    assert(old(self).parent_ok(j));
                    let pj = self.parents@[j] as int;
                    assert(pj < k);
                    let m = choose|m: int|
                        0 <= m < old(self).children@[pj].len() && #[trigger] old(self).children@[
                            pj
                        ][m] == j;
                    if pj == u {
                        if m < pos {
                            assert(self.children@[pj][m] == j);
                        } else {
                            assert(self.children@[pj][m + 1] == j);
                            assert(0 <= m + 1 < self.children@[pj].len());
                        }
                    } else {
                        assert(self.children@[pj] == old(self).children@[pj]);
                        assert(self.children@[pj][m] == j);
                    }
                }
            }
            assert forall|p: Path| #[trigger]
                self.tree@.contains_key(p) <==> exists|i: int|
                    1 <= i < n && #[trigger] self.paths@[i] == p by {
                if p == q {
                    assert(self.paths@[k as int] == p);
                } else if old(self).tree@.contains_key(p) {
                    let i = choose|i: int| 1 <= i < k && #[trigger] old(self).paths@[i] == p;
                    assert(self.paths@[i] == p);
                } else if exists|i: int| 1 <= i < n && #[trigger] self.paths@[i] == p {
                    let i = choose|i: int| 1 <= i < n && #[trigger] self.paths@[i] == p;
                    assert(old(self).paths@[i] == p);
                }
            }
            assert forall|i: int| 1 <= i < n implies #[trigger] self.tree@[self.paths@[i]]
                == self.leaves@[i] by {
                if i < k {
                    assert(old(self).path(i) != q);
                }
            }
        }
        k
    }

    /// Whether each name that inserting `cs` passes fits (see
    /// [`names_fit_at`]).
    pub fn path_fits(&self, cs: &Vec<Vec<char>>) -> (b: bool)
        requires
            self.wf(),
        ensures
            b == names_fit_at(self.tree(), views(cs@)),
    {
        let ghost p = views(cs@);
        let ghost m = self.tree@;
        proof {
            self.lemma_closed();
        }
        let mut u: usize = 0;
        let mut fresh = false;
        let ghost mut j0: int = 0;
        let mut j: usize = 0;
        assert(p.take(0) =~= Seq::<Seq<char>>::empty());
        while j < cs.len()
            invariant
                self.wf(),
                m == self.tree@,
                p == views(cs@),
                tree_closed(m),
                u < self.len(),
                j <= cs@.len(),
                !fresh ==> self.paths@[u as int] == p.take(j as int) && self.leaves@[u as int] is None,
                fresh ==> 1 <= j0 <= j && !m.contains_key(p.take(j0)),
                forall|k: int|
                    1 <= k <= j ==> !(#[trigger] m.contains_key(p.take(k)) && m[p.take(k)] is Some),
                forall|i: int| 0 <= i < j ==> utf8_len(#[trigger] p[i]) <= 255,
            decreases cs@.len() - j,
        {
            let ghost q = p.take(j + 1);
            if !name_fits(&cs[j]) {
                proof {
                    assert(p[j as int] == cs@[j as int]@);
                    assert(!file_above(m, q)) by {
                        assert forall|k: int|
                            0 < k < q.len() implies !(#[trigger] m.contains_key(q.take(k))
                            && m[q.take(k)] is Some) by {
                            assert(q.take(k) =~= p.take(k));
                        }
                    }
                }
                return false;
            }
            proof {
                assert(p[j as int] == cs@[j as int]@);
            }
            if !fresh {
                proof {
                    assert(q =~= self.paths@[u as int].push(cs@[j as int]@));
                }
                match self.find_child(u, &cs[j]) {
                    Ok(k) => {
                        proof {
                            assert(self.tree@.contains_key(q)) by {
                                assert(self.paths@[k as int] == q);
                            }
                            assert(self.tree@[q] == self.leaves@[k as int]);
                        }
                        if self.leaves[k].is_some() {
                            proof {
                                assert forall|i: int|
                                    0 <= i < p.len() && !file_above(m, p.take(i + 1)) implies utf8_len(
                                    #[trigger] p[i],
                                ) <= 255 by {
                                    if i > j {
                                        let r = p.take(i + 1);
                                        assert(r.take(j + 1) =~= q);
                                        assert(m.contains_key(r.take(j + 1)));
                                    }
                                }
                            }
                            return true;
                        }
                        u = k;
                    },
                    Err(_) => {
                        proof {
                            assert(!self.tree@.contains_key(q)) by {
                                if self.tree@.contains_key(q) {
                                    let i = choose|i: int|
                                        1 <= i < self.len() && #[trigger] self.paths@[i] == q;
                                    assert(self.path(i) == q);
                                }
                            }
                            j0 = j + 1;
                        }
                        fresh = true;
                    },
                }
            } else {
                proof {
                    if m.contains_key(q) && j0 < j + 1 {
                        assert(q.take(j0) =~= p.take(j0));
                    }
                }
            }
            j = j + 1;
        }
        proof {
            assert forall|i: int|
                0 <= i < p.len() && !file_above(m, p.take(i + 1)) implies utf8_len(#[trigger] p[i])
                <= 255 by {
                assert(i < j);
            }
        }
        true
    }

    /// Inserts the file at `cs` with data `d` (see [`insert_at`]).
    pub fn insert_path(&mut self, cs: &Vec<Vec<char>>, d: u32)
        requires
            old(self).wf(),
        ensures
            final(self).wf(),
            final(self).tree() == insert_at(old(self).tree(), Seq::empty(), views(cs@), d),
    {
        let ghost target = insert_at(self.tree@, Seq::empty(), views(cs@), d);
        let mut u: usize = 0;
        let mut j: usize = 0;
        assert(views(cs@).skip(0) =~= views(cs@));
        assert(views(cs@).take(0) =~= Seq::<Seq<char>>::empty());
        while j < cs.len()
            invariant
                self.wf(),
                u < self.len(),
                j <= cs@.len(),
                j < cs@.len() ==> self.leaves@[u as int] is None,
                self.paths@[u as int] == views(cs@).take(j as int),
                insert_at(self.tree@, self.paths@[u as int], views(cs@).skip(j as int), d) == target,
                target == insert_at(old(self).tree@, Seq::empty(), views(cs@), d),
            decreases cs@.len() - j,
        {
            let ghost rest = views(cs@).skip(j as int);
            let ghost q = self.paths@[u as int].push(cs@[j as int]@);
            proof {
                assert(rest[0] == cs@[j as int]@);
                assert(rest.drop_first() =~= views(cs@).skip(j + 1));
                assert(views(cs@).take(j + 1) =~= views(cs@).take(j as int).push(cs@[j as int]@));
            }
            match self.find_child(u, &cs[j]) {
                Ok(k) => {
                    proof {
                        assert(self.tree@.contains_key(q)) by {
                            assert(self.paths@[k as int] == q);
                        }
                        assert(self.tree@[q] == self.leaves@[k as int]);
                    }
                    if self.leaves[k].is_some() {
                        assert(insert_at(self.tree@, self.paths@[u as int], rest, d) == self.tree@);
                        return ;
                    }
                    u = k;
                },
                Err(pos) => {
                    proof {
                        assert(!self.tree@.contains_key(q)) by {
                            if self.tree@.contains_key(q) {
                                let i = choose|i: int|
                                    1 <= i < self.len() && #[trigger] self.paths@[i] == q;
                                assert(self.path(i) == q);
                            }
                        }
                    }
                    let leaf = if j + 1 == cs.len() {
                        Some(d)
                    } else {
                        None
                    };
                    let name = clone_chars(&cs[j]);
                    u = self.add_child(u, pos, name, leaf);
                    proof {
                        if j + 1 == cs@.len() {
                            assert(views(cs@).skip(j + 1).len() == 0);
                        }
                    }
                },
            }
            j = j + 1;
        }
        assert(views(cs@).skip(j as int).len() == 0);
    }

    /// Adds the nodes of `other` as [`merge_tree`] says.
    pub fn merge_from(&mut self, other: &Table, off: u32)
        requires
            old(self).wf(),
            other.wf(),
            data_below(other.tree(), off as int, 0x1_0000_0000),
        ensures
            final(self).wf(),
            final(self).tree() == merge_tree(old(self).tree(), other.tree(), off),
    {
        let ghost a = self.tree@;
        let ghost b = other.tree@;
        proof {
            self.lemma_closed();
        }
        let m = other.names.len();
        let mut map: Vec<Option<usize>> = Vec::new();
        map.push(Some(0));
        let mut j: usize = 1;
        while j < m
            invariant
                self.wf(),
                other.wf(),
                a == old(self).tree@,
                b == other.tree@,
                tree_closed(a),
                data_below(b, off as int, 0x1_0000_0000),
                m == other.len(),
                1 <= j <= m,
                map@.len() == j,
                map@[0] == Some(0usize),
                self.paths@[0] == Seq::<Seq<char>>::empty(),
                forall|i: int|
                    0 <= i < j && #[trigger] map@[i] is Some ==> ({
                        let k = map@[i]->0 as int;
                        &&& k < self.len()
                        &&& self.paths@[k] == other.paths@[i]
                        &&& other.leaves@[i] is None ==> self.leaves@[k] is None
                        &&& !file_above(a, other.paths@[i])
                        &&& a.contains_key(other.paths@[i]) ==> a[other.paths@[i]] is None
                    }),
                forall|i: int|
                    1 <= i < j && #[trigger] map@[i] is None ==> (a.contains_key(other.paths@[i]) && (
                    a[other.paths@[i]] is Some || other.leaves@[i] is Some)) || file_above(
                        a,
                        other.paths@[i],
                    ),
                forall|p: Path| #[trigger]
                    self.tree@.contains_key(p) <==> a.contains_key(p) || exists|i: int|
                        1 <= i < j && #[trigger] other.paths@[i] == p && !file_above(a, p),
                forall|p: Path|
                    #[trigger] self.tree@.contains_key(p) ==> self.tree@[p] == if a.contains_key(p) {
                        a[p]
                    } else {
                        shift(b[p], off)
                    },
            decreases m - j,
        {
            let pj = other.parents[j];
            let ghost p = other.paths@[j as int];
            proof {
                assert(other.parent_ok(j as int));
                assert(p == other.paths@[pj as int].push(other.names@[j as int]@));
                assert(other.tree@[p] == other.leaves@[j as int]);
                assert(b.contains_key(p));
            }
            match map[pj] {
                None => {
                    proof {
                        let pp = other.paths@[pj as int];
                        assert(pj >= 1);
                        assert(p.take(pp.len() as int) =~= pp);
                        if file_above(a, pp) {
                            let w = choose|w: int|
                                0 < w < pp.len() && #[trigger] a.contains_key(pp.take(w))
                                    && a[pp.take(w)] is Some;
                            assert(p.take(w) =~= pp.take(w));
                        } else {
                            assert(other.parent_ok(pj as int));
                            assert(other.leaves@[pj as int] is None);
                            assert(a.contains_key(pp) && a[pp] is Some);
                            assert(a.contains_key(p.take(pp.len() as int)) && a[p.take(
                                pp.len() as int,
                            )] is Some);
                        }
                        assert(file_above(a, p));
                    }
                    map.push(None);
                },
                Some(u) => {
                    proof {
                        assert(other.leaves@[pj as int] is None);
                    }
                    match self.find_child(u, &other.names[j]) {
                        Ok(k) => {
                            proof {
                                assert(self.paths@[k as int] == p);
                                assert(self.tree@.contains_key(p));
                                assert(a.contains_key(p)) by {
                                    if !a.contains_key(p) {
                                        let i = choose|i: int|
                                            1 <= i < j && #[trigger] other.paths@[i] == p
                                                && !file_above(a, p);
                                        assert(other.paths@[i] != other.paths@[j as int]);
                                    }
                                }
                                assert(self.tree@[p] == self.leaves@[k as int]);
                            }
                            if self.leaves[k].is_none() && other.leaves[j].is_none() {
                                proof {
                                    assert(!file_above(a, p)) by {
                                        if file_above(a, p) {
                                            let w = choose|w: int|
                                                0 < w < p.len() && #[trigger] a.contains_key(
                                                    p.take(w),
                                                ) && a[p.take(w)] is Some;
                                            assert(a.contains_key(p) && 0 < w < p.len());
                                        }
                                    }
                                }
                                map.push(Some(k));
                            } else {
                                map.push(None);
                            }
                        },
                        Err(pos) => {
                            let ghost pp = other.paths@[pj as int];
                            proof {
                                assert(!self.tree@.contains_key(p)) by {
                                    if self.tree@.contains_key(p) {
                                        let i = choose|i: int|
                                            1 <= i < self.len() && #[trigger] self.paths@[i] == p;
                                        assert(self.path(i) == self.path(u as int).push(
                                            other.names@[j as int]@,
                                        ));
                                    }
                                }
                                assert(!a.contains_key(p));
                                assert(!file_above(a, p)) by {
                                    if file_above(a, p) {
                                        let w = choose|w: int|
                                            0 < w < p.len() && #[trigger] a.contains_key(p.take(w))
                                                && a[p.take(w)] is Some;
                                        if w < pp.len() {
                                            assert(p.take(w) =~= pp.take(w));
                                            assert(file_above(a, pp));
                                        } else {
                                            assert(p.take(w) =~= pp);
                                        }
                                    }
                                }
                            }
                            let leaf = match other.leaves[j] {
                                Some(d) => {
                                    proof {
                                        assert(b[p] == Some(d));
                                    }
                                    Some(d + off)
                                },
                                None => None,
                            };
                            let name = clone_chars(&other.names[j]);
                            let ghost before: Table = *self;
                            let ghost map0 = map@;
                            let k = self.add_child(u, pos, name, leaf);
                            map.push(Some(k));
                            proof {
                                assert forall|i: int|
                                    0 <= i < j && #[trigger] map@[i] is Some implies map@[i]->0
                                    < self.len() && self.paths@[map@[i]->0 as int]
                                    == other.paths@[i] && (other.leaves@[i] is None
                                    ==> self.leaves@[map@[i]->0 as int] is None) by {
                                    assert(map@[i] == map0[i]);
                                    let kk = map@[i]->0 as int;
                                    assert(self.path(kk) == before.path(kk));
                                    assert(self.leaf(kk) == before.leaf(kk));
                                }
                                assert(self.paths@[k as int] == p);
                                assert(leaf == shift(b[p], off));
                            }
                        },
                    }
                },
            }
            proof {
                assert forall|p2: Path| #[trigger]
                    self.tree@.contains_key(p2) <==> a.contains_key(p2) || exists|i: int|
                        1 <= i < j + 1 && #[trigger] other.paths@[i] == p2 && !file_above(a, p2) by {
                    if exists|i: int|
                        1 <= i < j + 1 && #[trigger] other.paths@[i] == p2 && !file_above(a, p2) {
                        let i = choose|i: int|
                            1 <= i < j + 1 && #[trigger] other.paths@[i] == p2 && !file_above(a, p2);
                        if i < j {
                            assert(exists|i: int|
                                1 <= i < j && #[trigger] other.paths@[i] == p2 && !file_above(a, p2));
                        }
                    }
                }
            }
            j = j + 1;
        }
        proof {
            assert(self.tree@ =~= merge_tree(a, b, off)) by {
                assert forall|p: Path| #[trigger]
                    self.tree@.contains_key(p) == merge_tree(a, b, off).contains_key(p) by {
                    if b.contains_key(p) && !a.contains_key(p) && !file_above(a, p) {
                        let i = choose|i: int| 1 <= i < other.len() && #[trigger] other.paths@[i] == p;
                        assert(other.paths@[i] == p);
                    }
                    if exists|i: int| 1 <= i < j && #[trigger] other.paths@[i] == p && !file_above(a, p) {
                        let i = choose|i: int|
                            1 <= i < j && #[trigger] other.paths@[i] == p && !file_above(a, p);
                        assert(b.contains_key(other.paths@[i]));
                    }
                }
            }
        }
    }

    /// The children of `u`: the nodes one name below it, each once,
    /// sorted by name.
    pub proof fn lemma_children(&self, u: int)
        requires
            self.wf(),
            0 <= u < self.len(),
        ensures
            forall|m: int|
                0 <= m < self.children(u).len() ==> 1 <= #[trigger] self.children(u)[m] < self.len()
                    && self.path(self.children(u)[m] as int) == self.path(u).push(
                    self.name(self.children(u)[m] as int),
                ),
            forall|a: int, b: int|
                0 <= a < b < self.children(u).len() ==> name_lt(
                    self.name(#[trigger] self.children(u)[a] as int),
                    self.name(#[trigger] self.children(u)[b] as int),
                ),
            forall|k: int|
                1 <= k < self.len() && #[trigger] self.path(k).drop_last() == self.path(u)
                    ==> exists|m: int| 0 <= m < self.children(u).len() && #[trigger] self.children(u)[m] == k,
            self.leaf(u) is Some ==> self.children(u).len() == 0,
    {
        assert(self.children_ok(u));
        assert forall|m: int|
            0 <= m < self.children(u).len() implies 1 <= #[trigger] self.children(u)[m] < self.len()
            && self.path(self.children(u)[m] as int) == self.path(u).push(
            self.name(self.children(u)[m] as int),
        ) by {
            assert(self.parent_ok(self.children(u)[m] as int));
        }
        assert forall|a: int, b: int|
            0 <= a < b < self.children(u).len() implies name_lt(
            self.name(#[trigger] self.children(u)[a] as int),
            self.name(#[trigger] self.children(u)[b] as int),
        ) by {
            assert(self.child_name(u, a) == self.name(self.children(u)[a] as int));
            assert(self.child_name(u, b) == self.name(self.children(u)[b] as int));
        }
        assert forall|k: int|
            1 <= k < self.len() && #[trigger] self.path(k).drop_last() == self.path(u) implies exists|m: int|
            0 <= m < self.children(u).len() && #[trigger] self.children(u)[m] == k by {
            assert(self.parent_ok(k));
            let pk = self.parents@[k] as int;
            assert(self.paths@[k].drop_last() =~= self.paths@[pk]);
            assert(pk == u);
            assert(self.listed(k));
            let m = choose|m: int|
                0 <= m < self.children@[pk].len() && #[trigger] self.children@[pk][m] == k;
            assert(self.children(u)[m] == k);
        }
        if self.leaf(u) is Some && self.children(u).len() > 0 {
            let k = self.children(u)[0] as int;
            assert(self.parent_ok(k));
        }
    }

    pub fn children_of(&self, u: usize) -> (r: &Vec<usize>)
        requires
            self.wf(),
            u < self.len(),
        ensures
            r@ == self.children(u as int),
    {
        &self.children[u]
    }
}

fn clone_chars(p: &Vec<char>) -> (r: Vec<char>)
    ensures
        r@ == p@,
{
    let mut out: Vec<char> = Vec::new();
    let mut i: usize = 0;
    while i < p.len()
        invariant
            i <= p@.len(),
            out@ == p@.take(i as int),
        decreases p@.len() - i,
    {
        out.push(p[i]);
        i = i + 1;
        assert(out@ =~= p@.take(i as int));
    }
    assert(p@.take(p@.len() as int) =~= p@);
    out
}

} // verus!
