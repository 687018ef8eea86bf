//! A read-only filesystem over a fixed set of files, addressed by path or
//! by inode.

pub mod eytzinger_layout;
pub mod layout;
pub mod names;
pub mod object;
pub mod path;
pub mod tree;

use core::marker::PhantomData;

use vstd::prelude::*;

use crate::archives::{chars_of, string_of};
use crate::filesystem::path::{comps, components_exec, has_upper, lower, make_lower, normalize, normalize_exec, views};
use crate::filesystem::eytzinger_layout::{eytzinger_order, eytzinger_search_names, eytzinger_sorted};
use crate::filesystem::names::name_lt;
use crate::filesystem::layout::{
    block_start_ok, breadth_first, child_count_of, children_total, in_block, in_dir_block, lists,
    NodeContent,
};
use crate::filesystem::tree::{data_below, Path, Table, Tree};

verus! {

/// Why a lookup failed.
#[derive(Clone, Copy, Debug, PartialEq, Eq, Structural)]
pub enum RofsError {
    /// No such entity.
    NotFound,
    /// Not a file.
    IsDir,
}

/// The path syntax of a filesystem and the inode of its root.
pub trait Config {
    spec fn separator(c: char) -> bool;

    spec fn root_inode() -> u64;

    fn is_separator(c: char) -> (r: bool)
        ensures
            r == Self::separator(c),
    ;

    fn inode_root() -> (r: u64)
        ensures
            r == Self::root_inode(),
    ;
}

/// `/` separated, with the root at inode 1.
#[derive(Clone, Copy, Debug)]
pub struct DefaultConfig;

impl Config for DefaultConfig {
    open spec fn separator(c: char) -> bool {
        c == '/'
    }

    open spec fn root_inode() -> u64 {
        1
    }

    fn is_separator(c: char) -> (r: bool) {
        c == '/'
    }

    fn inode_root() -> (r: u64) {
        1
    }
}

/// A read-only filesystem: nodes numbered from 0 (the root) breadth
/// first, the children of each directory in one block, in the eytzinger
/// layout of their names sorted; each node a directory or a file with its
/// data. Inode numbers are node numbers moved by the root inode of the
/// configuration.
pub struct Rofs<T, C: Config = DefaultConfig> {
    contents: Vec<NodeContent>,
    keys: Vec<Vec<char>>,
    names: Vec<String>,
    files: Vec<T>,
    paths: Ghost<Seq<Path>>,
    tree: Ghost<Tree>,
    config: PhantomData<C>,
}

/// A node as seen from outside: the number the node's own numbering gives
/// it (see [`Rofs::entry`]), its name and what it is.
#[derive(Debug)]
pub struct Entry<'a, T> {
    pub inode: u64,
    pub name: &'a str,
    pub kind: EntryKind<'a, T>,
}

/// A directory, with the numbers of its children in block order, or a
/// file with its data.
#[derive(Debug)]
pub enum EntryKind<'a, T> {
    Dir(Vec<u64>),
    File(&'a T),
}

/// The node number for inode `inode`, as a `u32`.
pub open spec fn node_index<C: Config>(inode: u64) -> u32 {
    inode.wrapping_sub(C::root_inode()) as u32
}

/// The inode of node `i`.
pub open spec fn inode_number<C: Config>(i: u32) -> u64 {
    (i as u64).wrapping_add(C::root_inode())
}

/// The number an entry carries for node `i`: `i` moved down by the root
/// inode.
pub open spec fn entry_number<C: Config>(i: int) -> u64 {
    (i as u64).wrapping_sub(C::root_inode())
}

/// The inode of the node whose entry carries `number` (see [`Rofs::entry`]):
/// the number moved up by twice the root inode.
pub fn inode_of_entry_number<C: Config>(number: u64) -> (r: u64)
    ensures
        r == number.wrapping_add(C::root_inode()).wrapping_add(C::root_inode()),
        forall|i: int| 0 <= i <= u32::MAX && number == entry_number::<C>(i) ==> r == inode_number::<C>(i as u32),
{
    let root = C::inode_root();
    let r = number.wrapping_add(root).wrapping_add(root);
    proof {
        assert forall|i: int| 0 <= i <= u32::MAX && number == entry_number::<C>(i) implies r == inode_number::<C>(i as u32) by {
            let x = i as u64;
            assert((x as u32) as u64 == x);
            let root = C::root_inode();
            assert(x.wrapping_sub(root).wrapping_add(root).wrapping_add(root) == x.wrapping_add(root)) by {
                assert(x.wrapping_sub(root) == (if x >= root { (x - root) as u64 } else { (x - root + 0x1_0000_0000_0000_0000) as u64 }));
            }
        }
    }
    r
}

/// The data of a node: `None` for a directory.
pub open spec fn content_data(c: NodeContent) -> Option<u32> {
    match c {
        NodeContent::Dir { .. } => None,
        NodeContent::File { data_index } => Some(data_index),
    }
}

fn clone_chars(p: &Vec<char>) -> (r: Vec<char>)
    ensures
        r@ == p@,
{
    let mut out: Vec<char> = Vec::new();
    let mut i: usize = 0;
    while i < p.len()
        invariant
            i <= p@.len(),
            out@ == p@.take(i as int),
        decreases p@.len() - i,
    {
        out.push(p[i]);
        i = i + 1;
        assert(out@ =~= p@.take(i as int));
    }
    assert(p@.take(p@.len() as int) =~= p@);
    out
}

impl<T, C: Config> Rofs<T, C> {
    spec fn block_ok(&self, k: int) -> bool {
        match self.contents@[k] {
            NodeContent::Dir { child_index, child_count } => {
                &&& 1 <= child_index
                &&& child_index + child_count <= self.contents@.len()
                &&& forall|m: int|
                    child_index <= m < child_index + child_count ==> #[trigger] self.paths@[m]
                        == self.paths@[k].push(self.keys@[m]@)
                &&& eytzinger_sorted(
                    views(self.keys@.subrange(child_index as int, child_index + child_count)),
                )
            },
            NodeContent::File { .. } => true,
        }
    }

    pub closed spec fn wf(&self) -> bool {
        let n = self.contents@.len();
        &&& n >= 1
        &&& n <= usize::MAX
        &&& self.keys@.len() == n
        &&& self.names@.len() == n
        &&& self.paths@.len() == n
        &&& self.paths@[0] == Seq::<Seq<char>>::empty()
        &&& self.contents@[0] is Dir
        &&& self.keys@[0]@.len() == 0
        &&& forall|k: int| 0 <= k < n ==> #[trigger] self.block_ok(k)
        &&& forall|m: int| 1 <= m < n ==> #[trigger] in_block(self.contents@, n as int, m)
        &&& forall|i: int, j: int|
            0 <= i < n && 0 <= j < n && i != j ==> #[trigger] self.paths@[i] != #[trigger] self.paths@[j]
        &&& forall|p: Path| #[trigger]
            self.tree@.contains_key(p) <==> exists|m: int| 1 <= m < n && #[trigger] self.paths@[m] == p
        &&& forall|m: int| 1 <= m < n ==> #[trigger] self.tree@[self.paths@[m]] == content_data(self.contents@[m])
        &&& forall|m: int| 0 <= m < n ==> #[trigger] self.names@[m]@ == self.keys@[m]@
        &&& data_below(self.tree@, 0, self.files@.len() as int)
        &&& forall|k: int| 0 <= k < n ==> #[trigger] block_start_ok(self.contents@, k)
    }

    /// Each path maps to `None` for a directory or to the data index of a
    /// file; the root, with the empty path, is left out.
    pub closed spec fn tree(&self) -> Tree {
        self.tree@
    }

    pub closed spec fn files(&self) -> Seq<T> {
        self.files@
    }

    pub closed spec fn node_count(&self) -> nat {
        self.contents@.len()
    }

    pub closed spec fn node_path(&self, i: int) -> Path {
        self.paths@[i]
    }

    pub closed spec fn node_data(&self, i: int) -> Option<u32> {
        content_data(self.contents@[i])
    }

    /// The children of node `i`: one block of nodes.
    pub closed spec fn node_children(&self, i: int) -> Seq<usize> {
        match self.contents@[i] {
            NodeContent::Dir { child_index, child_count } => Seq::new(
                child_count as nat,
                |t: int| (child_index + t) as usize,
            ),
            NodeContent::File { .. } => Seq::empty(),
        }
    }

    /// The name of node `i`: the last name of its path, empty for the root.
    pub open spec fn node_name(&self, i: int) -> Seq<char> {
        if i == 0 {
            Seq::empty()
        } else {
            self.node_path(i).last()
        }
    }

    /// The node at `node_path(parent)` + `cs`; `parent` itself when `cs` is
    /// empty, whether or not it is a node.
    pub closed spec fn find(&self, parent: int, cs: Path) -> Option<int> {
        if cs.len() == 0 {
            Some(parent)
        } else if 0 <= parent < self.node_count() && exists|k: int|
            0 <= k < self.node_count() && #[trigger] self.node_path(k) == self.node_path(parent) + cs {
            Some(
                choose|k: int|
                    0 <= k < self.node_count() && #[trigger] self.node_path(k) == self.node_path(parent)
                        + cs,
            )
        } else {
            None
        }
    }

    /// The node at `text` below `parent`: `text` with `..` resolved, split
    /// at the separators, first as it is, then, if it has ASCII capitals,
    /// lowercased.
    pub open spec fn resolve(&self, parent: int, text: Seq<char>) -> Option<int> {
        let norm = normalize::<C>(text);
        match self.find(parent, comps::<C>(norm)) {
            Some(i) => Some(i),
            None => if has_upper(norm) {
                self.find(parent, comps::<C>(lower(norm)))
            } else {
                None
            },
        }
    }

    /// A node below another, by more than one name, has a node one name
    /// below that other on its way.
    proof fn lemma_on_the_way(&self, j: int, v: int, rest: Path)
        requires
            self.wf(),
            0 <= j < self.node_count(),
            0 <= v < self.node_count(),
            rest.len() >= 1,
            self.paths@[j] == self.paths@[v] + rest,
        ensures
            exists|w: int|
                1 <= w < self.node_count() && #[trigger] self.paths@[w] == self.paths@[v].push(rest[0])
                    && in_dir_block(self.contents@[v], w),
        decreases rest.len(),
    {
        let n = self.contents@.len();
        assert(j >= 1) by {
            if j == 0 {
                assert(self.paths@[j].len() == 0);
            }
        }
        assert(in_block(self.contents@, n as int, j));
        let p = choose|p: int| 0 <= p < n && in_dir_block(#[trigger] self.contents@[p], j);
        assert(self.block_ok(p));
        match self.contents@[p] {
            NodeContent::Dir { child_index, child_count } => {
                assert(self.paths@[j] == self.paths@[p].push(self.keys@[j]@));
                assert(self.paths@[j].drop_last() =~= self.paths@[p]);
                if rest.len() == 1 {
                    assert(self.paths@[j].drop_last() =~= self.paths@[v]);
                    assert(p == v);
                    assert(self.paths@[v] + rest =~= self.paths@[v].push(rest[0]));
                } else {
                    assert(self.paths@[p] =~= self.paths@[v] + rest.drop_last());
                    self.lemma_on_the_way(p, v, rest.drop_last());
                    assert(rest.drop_last()[0] == rest[0]);
                }
            },
            NodeContent::File { .. } => {},
        }
    }

    /// The node paths: distinct, the root's empty, each in the tree with
    /// its data; a node is found at its own path.
    pub proof fn lemma_nodes(&self)
        requires
            self.wf(),
        ensures
            self.node_count() >= 1,
            self.node_path(0).len() == 0,
            self.node_data(0) is None,
            forall|i: int, j: int|
                0 <= i < self.node_count() && 0 <= j < self.node_count() && i != j
                    ==> #[trigger] self.node_path(i) != #[trigger] self.node_path(j),
            forall|p: Path| #[trigger]
                self.tree().contains_key(p) <==> exists|i: int|
                    1 <= i < self.node_count() && #[trigger] self.node_path(i) == p,
            forall|i: int|
                1 <= i < self.node_count() ==> #[trigger] self.tree()[self.node_path(i)]
                    == self.node_data(i),
            forall|i: int, cs: Path|
                0 <= i < self.node_count() && cs.len() > 0 && #[trigger] self.find(i, cs) is Some
                    ==> 0 <= self.find(i, cs)->0 < self.node_count() && self.node_path(
                    self.find(i, cs)->0,
                ) == self.node_path(i) + cs,
            forall|i: int, cs: Path|
                cs.len() > 0 && !(0 <= i < self.node_count()) ==> #[trigger] self.find(i, cs) is None,
            forall|i: int, cs: Path| cs.len() == 0 ==> #[trigger] self.find(i, cs) == Some(i),
    {
        assert forall|p: Path| #[trigger]
            self.tree().contains_key(p) <==> exists|i: int|
                1 <= i < self.node_count() && #[trigger] self.node_path(i) == p by {
            if self.tree().contains_key(p) {
                let i = choose|i: int| 1 <= i < self.contents@.len() && #[trigger] self.paths@[i] == p;
                assert(self.node_path(i) == p);
            }
            if exists|i: int| 1 <= i < self.node_count() && #[trigger] self.node_path(i) == p {
                let i = choose|i: int| 1 <= i < self.node_count() && #[trigger] self.node_path(i) == p;
                assert(self.paths@[i] == p);
            }
        }
    }

    /// The number of children of the nodes before node `i`.
    pub open spec fn children_before(&self, i: int) -> nat
        decreases i,
    {
        if i <= 0 {
            0
        } else {
            self.children_before(i - 1) + self.node_children(i - 1).len()
        }
    }

    /// The nodes lie breadth first: node 0 is the root, and the children of
    /// node `i` are the nodes right after the root and the children of the
    /// nodes before `i`, their names in the eytzinger layout of the names
    /// sorted.
    pub open spec fn lays_out_breadth_first(&self) -> bool {
        &&& self.node_count() >= 1
        &&& self.node_path(0) == Seq::<Seq<char>>::empty()
        &&& forall|i: int, t: int|
            0 <= i < self.node_count() && 0 <= t < self.node_children(i).len() ==> #[trigger] self.node_children(i)[t]
                == 1 + self.children_before(i) + t
        &&& forall|i: int|
            #![trigger self.node_children(i)]
            0 <= i < self.node_count() ==> eytzinger_sorted(
                self.node_children(i).map_values(|k: usize| self.node_name(k as int)),
            )
    }

    proof fn lemma_children_before(&self, i: int)
        requires
            self.wf(),
            0 <= i <= self.node_count(),
        ensures
            self.children_before(i) == children_total(self.contents@, i),
        decreases i,
    {
        if i > 0 {
            self.lemma_children_before(i - 1);
            assert(self.node_children(i - 1).len() == child_count_of(self.contents@[i - 1]));
        }
    }

    /// Every filesystem lies breadth first (see [`Rofs::lays_out_breadth_first`]):
    /// with [`Rofs::lemma_children`], this fixes the node, and so the inode,
    /// of every path.
    pub proof fn lemma_breadth_first(&self)
        requires
            self.wf(),
        ensures
            self.lays_out_breadth_first(),
    {
        assert forall|i: int, t: int|
            0 <= i < self.node_count() && 0 <= t < self.node_children(i).len() implies #[trigger] self.node_children(i)[t]
            == 1 + self.children_before(i) + t by {
            self.lemma_children_before(i);
            assert(block_start_ok(self.contents@, i));
            match self.contents@[i] {
                NodeContent::Dir { child_index, child_count } => {
                    assert(self.node_children(i)[t] == (child_index + t) as usize);
                    assert(child_index == 1 + children_total(self.contents@, i));
                    assert(self.block_ok(i));
                },
                NodeContent::File { .. } => {},
            }
        }
        assert forall|i: int|
            #![trigger self.node_children(i)]
            0 <= i < self.node_count() implies eytzinger_sorted(
            self.node_children(i).map_values(|k: usize| self.node_name(k as int)),
        ) by {
            self.lemma_children(i);
        }
    }

    /// The children of a directory node: the nodes one name below it, each
    /// once, their names in the eytzinger layout of the names sorted; a file
    /// has none.
    pub proof fn lemma_children(&self, i: int)
        requires
            self.wf(),
            0 <= i < self.node_count(),
        ensures
            forall|t: int|
                0 <= t < self.node_children(i).len() ==> 1 <= #[trigger] self.node_children(i)[t]
                    < self.node_count() && self.node_path(self.node_children(i)[t] as int)
                    == self.node_path(i).push(self.node_name(self.node_children(i)[t] as int)),
            eytzinger_sorted(self.node_children(i).map_values(|k: usize| self.node_name(k as int))),
            forall|k: int|
                0 <= k < self.node_count() && self.node_path(k).len() > 0 && #[trigger] self.node_path(k).drop_last()
                    == self.node_path(i) ==> exists|t: int|
                    0 <= t < self.node_children(i).len() && #[trigger] self.node_children(i)[t] == k,
            self.node_data(i) is Some ==> self.node_children(i).len() == 0,
    {
        let n = self.contents@.len();
        assert(self.block_ok(i));
        match self.contents@[i] {
            NodeContent::Dir { child_index, child_count } => {
                let ch = self.node_children(i);
                assert forall|t: int| 0 <= t < ch.len() implies 1 <= #[trigger] ch[t] < self.node_count()
                    && self.node_path(ch[t] as int) == self.node_path(i).push(self.node_name(ch[t] as int)) by {
                    let m = child_index + t;
                    assert(ch[t] == m);
                    assert(self.paths@[m] == self.paths@[i].push(self.keys@[m]@));
                }
                let names = ch.map_values(|k: usize| self.node_name(k as int));
                let ks = views(self.keys@.subrange(child_index as int, child_index + child_count));
                assert forall|t: int| 0 <= t < ch.len() implies #[trigger] names[t] == ks[t] by {
                    let m = child_index + t;
                    assert(ch[t] == m);
                    assert(self.paths@[m] == self.paths@[i].push(self.keys@[m]@));
                }
                assert(names =~= ks);
                assert forall|k: int|
                    0 <= k < self.node_count() && self.node_path(k).len() > 0 && #[trigger] self.node_path(k).drop_last()
                        == self.node_path(i) implies exists|t: int|
                    0 <= t < ch.len() && #[trigger] ch[t] == k by {
                    let rest = seq![self.paths@[k].last()];
                    assert(self.paths@[k] =~= self.paths@[i] + rest);
                    self.lemma_on_the_way(k, i, rest);
                    let w = choose|w: int|
                        1 <= w < self.node_count() && #[trigger] self.paths@[w] == self.paths@[i].push(rest[0])
                            && in_dir_block(self.contents@[i], w);
                    assert(self.paths@[i].push(rest[0]) =~= self.paths@[k]);
                    assert(w == k);
                    assert(ch[k - child_index] == k);
                }
            },
            NodeContent::File { .. } => {
                assert forall|k: int|
                    0 <= k < self.node_count() && self.node_path(k).len() > 0 && #[trigger] self.node_path(k).drop_last()
                        == self.node_path(i) implies false by {
                    let rest = seq![self.paths@[k].last()];
                    assert(self.paths@[k] =~= self.paths@[i] + rest);
                    self.lemma_on_the_way(k, i, rest);
                }
            },
        }
    }

    /// A lookup below a node finds what a lookup from the root finds at
    /// that node's path followed by the same components.
    pub proof fn lemma_find_relative(&self, parent: int, cs: Path)
        requires
            self.wf(),
            0 <= parent < self.node_count(),
        ensures
            self.find(parent, cs) == self.find(0, self.node_path(parent) + cs),
    {
        self.lemma_nodes();
        let full = self.node_path(parent) + cs;
        assert(self.node_path(0) + full =~= full);
        if cs.len() == 0 {
            assert(full =~= self.node_path(parent));
            if parent != 0 {
                assert(self.node_path(parent).len() > 0) by {
                    if self.node_path(parent).len() == 0 {
                        assert(self.node_path(parent) =~= self.node_path(0));
                    }
                }
                assert(self.node_path(parent) == self.node_path(0) + full);
                let k = self.find(0, full)->0;
                assert(self.node_path(k) == full);
            } else {
                assert(full.len() == 0);
            }
        } else {
            if self.find(parent, cs) is Some {
                let k = self.find(parent, cs)->0;
                assert(self.node_path(k) == self.node_path(0) + full);
                let k2 = self.find(0, full)->0;
                assert(self.node_path(k2) == full);
            } else if self.find(0, full) is Some {
                let k2 = self.find(0, full)->0;
                assert(self.node_path(k2) == self.node_path(parent) + cs);
                assert(self.find(parent, cs) is Some);
            }
        }
    }

    fn from_table(table: Table, files: Vec<T>) -> (r: Self)
        requires
            table.wf(),
            data_below(table.tree(), 0, files@.len() as int),
        ensures
            r.wf(),
            r.tree() == table.tree(),
            r.files() == files@,
    {
        let (contents, ord) = breadth_first(&table);
        let n = ord.len();
        let mut keys: Vec<Vec<char>> = Vec::new();
        let mut names: Vec<String> = Vec::new();
        let mut m: usize = 0;
        proof {
            table.lemma_paths();
        }
        while m < n
            invariant
                table.wf(),
                n == ord@.len(),
                forall|k: int| 0 <= k < ord@.len() ==> #[trigger] ord@[k] < table.len(),
                m <= n,
                keys@.len() == m,
                names@.len() == m,
                forall|k: int| 0 <= k < m ==> #[trigger] keys@[k]@ == table.name(ord@[k] as int),
                forall|k: int| 0 <= k < m ==> #[trigger] names@[k]@ == keys@[k]@,
            decreases n - m,
        {
            let key = clone_chars(table.name_of(ord[m]));
            proof {
                table.lemma_paths();
            }
            names.push(string_of(&key));
            keys.push(key);
            m = m + 1;
        }
        let ghost paths = Seq::new(n as nat, |k: int| table.path(ord@[k] as int));
        let ghost tree = table.tree();
        let r = Rofs {
            contents,
            keys,
            names,
            files,
            paths: Ghost(paths),
            tree: Ghost(tree),
            config: PhantomData,
        };
        proof {
            let t = table;
            let c = r.contents@;
            let o = ord@;
            t.lemma_paths();
            assert(o[0] == 0);
            assert(r.paths@[0] == t.path(0));
            assert(crate::filesystem::layout::content_ok(t, c[0], o, 0));
            assert(c[0] is Dir);
            assert forall|k: int| 0 <= k < n implies #[trigger] r.block_ok(k) by {
                assert(crate::filesystem::layout::content_ok(t, c[k], o, k));
                match c[k] {
                    NodeContent::Dir { child_index, child_count } => {
                        let u = o[k] as int;
                        t.lemma_children(u);
                        assert forall|mm: int|
                            child_index <= mm < child_index + child_count implies #[trigger] r.paths@[mm]
                            == r.paths@[k].push(r.keys@[mm]@) by {
                            let tt = mm - child_index;
                            let perm = eytzinger_order(child_count as nat);
                            assert(0 <= perm[tt] < child_count);
                            assert(o[child_index + tt] == t.children(u)[perm[tt]]);
                        }
                        let ks = views(r.keys@.subrange(child_index as int, child_index + child_count));
                        let perm = eytzinger_order(child_count as nat);
                        assert forall|x: int, y: int|
                            0 <= x < ks.len() && 0 <= y < ks.len() && perm[x] < perm[y] implies name_lt(
                            #[trigger] ks[x],
                            #[trigger] ks[y],
                        ) by {
                            assert(o[child_index + x] == t.children(u)[perm[x]]);
                            assert(o[child_index + y] == t.children(u)[perm[y]]);
                            assert(ks[x] == r.keys@[child_index + x]@);
                            assert(ks[y] == r.keys@[child_index + y]@);
                        }
                        assert(ks.len() == child_count);
                    },
                    NodeContent::File { .. } => {},
                }
            }
            assert forall|i: int, j: int|
                0 <= i < n && 0 <= j < n && i != j implies #[trigger] r.paths@[i] != #[trigger] r.paths@[j] by {
                assert(o[i] != o[j]);
            }
            assert forall|p: Path| #[trigger]
                r.tree@.contains_key(p) <==> exists|m: int| 1 <= m < n && #[trigger] r.paths@[m] == p by {
                if r.tree@.contains_key(p) {
                    let tt = choose|tt: int| 1 <= tt < t.len() && #[trigger] t.path(tt) == p;
                    assert(lists(o, tt));
                    let mm = choose|mm: int| 0 <= mm < o.len() && #[trigger] o[mm] == tt;
                    assert(mm != 0);
                    assert(r.paths@[mm] == p);
                }
                if exists|m: int| 1 <= m < n && #[trigger] r.paths@[m] == p {
                    let mm = choose|mm: int| 1 <= mm < n && #[trigger] r.paths@[mm] == p;
                    assert(o[mm] != o[0]);
                    assert(t.path(o[mm] as int) == p);
                }
            }
            assert(r.keys@[0]@.len() == 0);
            assert(n >= 1);
            assert(r.contents@.len() == n);
            assert(r.keys@.len() == n);
            assert(r.names@.len() == n);
            assert(r.paths@.len() == n);
            assert(r.paths@[0] == Seq::<Seq<char>>::empty());
            assert(data_below(r.tree@, 0, r.files@.len() as int));
            assert forall|mm: int| 1 <= mm < n implies #[trigger] in_block(r.contents@, n as int, mm) by {}
            assert forall|mm: int| 0 <= mm < n implies #[trigger] r.names@[mm]@ == r.keys@[mm]@ by {}
            assert forall|mm: int| 1 <= mm < n implies #[trigger] r.tree@[r.paths@[mm]] == content_data(
                c[mm],
            ) by {
                assert(crate::filesystem::layout::content_ok(t, c[mm], o, mm));
                assert(o[mm] != o[0]);
                assert(t.tree()[t.path(o[mm] as int)] == t.leaf(o[mm] as int));
            }
        }
        r
    }
    /// The stored name of each node is its name.
    proof fn lemma_names(&self)
        requires
            self.wf(),
        ensures
            forall|i: int| 0 <= i < self.node_count() ==> #[trigger] self.names@[i]@ == self.node_name(i),
    {
        let n = self.contents@.len();
        assert forall|i: int| 0 <= i < self.node_count() implies #[trigger] self.names@[i]@
            == self.node_name(i) by {
            if i > 0 {
                assert(in_block(self.contents@, n as int, i));
                let p = choose|p: int| 0 <= p < n && in_dir_block(#[trigger] self.contents@[p], i);
                assert(self.block_ok(p));
                match self.contents@[p] {
                    NodeContent::Dir { .. } => {
                        assert(self.paths@[i] == self.paths@[p].push(self.keys@[i]@));
                    },
                    NodeContent::File { .. } => {},
                }
            }
        }
    }

    /// The child of directory node `v` named `c`, by an eytzinger search
    /// of its block.
    fn search_block(&self, v: usize, child_index: usize, child_count: usize, c: &Vec<char>) -> (r: Option<usize>)
        requires
            self.wf(),
            v < self.contents@.len(),
            self.contents@[v as int] == (NodeContent::Dir { child_index, child_count }),
        ensures
            match r {
                Some(m) => child_index <= m < child_index + child_count && self.keys@[m as int]@ == c@,
                None => forall|m: int| child_index <= m < child_index + child_count ==> #[trigger] self.keys@[m]@ != c@,
            },
    {
        proof {
            assert(self.block_ok(v as int));
        }
        let end = child_index + child_count;
        match eytzinger_search_names(&self.keys, child_index, end, c) {
            Some(j) => Some(child_index + j),
            None => None,
        }
    }

    fn find_exec(&self, parent: u32, cs: &Vec<Vec<char>>) -> (r: Option<u32>)
        requires
            self.wf(),
        ensures
            match self.find(parent as int, views(cs@)) {
                Some(i) => r == Some(i as u32),
                None => r is None,
            },
    {
        if cs.len() == 0 {
            return Some(parent);
        }
        let start = parent as usize;
        if start >= self.contents.len() {
            return None;
        }
        let ghost target = self.paths@[start as int] + views(cs@);
        let mut v = start;
        let mut j: usize = 0;
        assert(self.paths@[start as int] + views(cs@).take(0) =~= self.paths@[start as int]);
        while j < cs.len()
            invariant
                self.wf(),
                start < self.contents@.len(),
                v < self.contents@.len(),
                j <= cs@.len(),
                target == self.paths@[start as int] + views(cs@),
                self.paths@[v as int] == self.paths@[start as int] + views(cs@).take(j as int),
                start == parent as usize,
            decreases cs@.len() - j,
        {
            let ghost rest = views(cs@).skip(j as int);
            proof {
                assert(target =~= self.paths@[v as int] + rest);
                assert(rest[0] == cs@[j as int]@);
            }
            match self.contents[v] {
                NodeContent::File { .. } => {
                    proof {
                        assert forall|k: int| 0 <= k < self.node_count() implies #[trigger] self.node_path(k)
                            != target by {
                            if self.paths@[k] == target {
                                self.lemma_on_the_way(k, v as int, rest);
                            }
                        }
                        assert(target == self.node_path(parent as int) + views(cs@));
                        assert(self.find(parent as int, views(cs@)) is None);
                    }
                    return None;
                },
                NodeContent::Dir { child_index, child_count } => {
                    match self.search_block(v, child_index, child_count, &cs[j]) {
                        Some(m) => {
                            proof {
                                assert(self.block_ok(v as int));
                                assert(self.paths@[m as int] == self.paths@[v as int].push(self.keys@[m as int]@));
                                assert(views(cs@).take(j + 1) =~= views(cs@).take(j as int).push(
                                    cs@[j as int]@,
                                ));
                            }
                            v = m;
                        },
                        None => {
                            proof {
                                assert forall|k: int| 0 <= k < self.node_count() implies #[trigger] self.node_path(k)
                                    != target by {
                                    if self.paths@[k] == target {
                                        self.lemma_on_the_way(k, v as int, rest);
                                        let w = choose|w: int|
                                            1 <= w < self.node_count() && #[trigger] self.paths@[w]
                                                == self.paths@[v as int].push(rest[0]) && in_dir_block(
                                                self.contents@[v as int],
                                                w,
                                            );
                                        assert(self.block_ok(v as int));
                                        assert(self.paths@[w] == self.paths@[v as int].push(self.keys@[w]@));
                                        assert(self.paths@[w].last() == self.keys@[w]@);
                                    }
                                }
                                assert(target == self.node_path(parent as int) + views(cs@));
                                assert(self.find(parent as int, views(cs@)) is None);
                            }
                            return None;
                        },
                    }
                },
            }
            j = j + 1;
        }
        proof {
            assert(views(cs@).take(j as int) =~= views(cs@));
            assert(self.node_path(v as int) == self.node_path(start as int) + views(cs@));
        }
        Some(v as u32)
    }

    /// The name of the node with inode `inode`.
    pub fn name(&self, inode: u64) -> (r: Result<&str, RofsError>)
        requires
            self.wf(),
        ensures
            ({
                let i = inode.wrapping_sub(C::root_inode()) as usize as int;
                if i < self.node_count() {
                    r matches Ok(s) && s@ == self.node_name(i)
                } else {
                    r == Err::<&str, RofsError>(RofsError::NotFound)
                }
            }),
    {
        let i = inode.wrapping_sub(C::inode_root()) as usize;
        if i >= self.names.len() {
            return Err(RofsError::NotFound);
        }
        proof {
            self.lemma_names();
        }
        Ok(self.names[i].as_str())
    }

    /// The node with inode `inode`: the number `entry_number` gives its
    /// node, its name, and its children or its data.
    pub fn entry(&self, inode: u64) -> (r: Result<Entry<'_, T>, RofsError>)
        requires
            self.wf(),
        ensures
            ({
                let i = inode.wrapping_sub(C::root_inode()) as usize as int;
                if i < self.node_count() {
                    &&& r is Ok
                    &&& r->Ok_0.inode == entry_number::<C>(i)
                    &&& r->Ok_0.name@ == self.node_name(i)
                    &&& match self.node_data(i) {
                        Some(d) => r->Ok_0.kind matches EntryKind::File(f) && d
                            < self.files().len() && *f == self.files()[d as int],
                        None => r->Ok_0.kind matches EntryKind::Dir(v) && v@.len()
                            == self.node_children(i).len() && forall|m: int|
                            0 <= m < v@.len() ==> #[trigger] v@[m] == entry_number::<C>(
                                self.node_children(i)[m] as int,
                            ),
                    }
                } else {
                    r is Err && r->Err_0 == RofsError::NotFound
                }
            }),
    {
        let root = C::inode_root();
        let i = inode.wrapping_sub(root) as usize;
        if i >= self.contents.len() {
            return Err(RofsError::NotFound);
        }
        proof {
            self.lemma_names();
        }
        let name = self.names[i].as_str();
        let number = (i as u64).wrapping_sub(root);
        let kind = match self.contents[i] {
            NodeContent::File { data_index } => {
                proof {
                    assert(i > 0) by {
                        if i == 0 {
                            assert(self.contents@[0] is Dir);
                        }
                    }
                    assert(self.tree@[self.paths@[i as int]] == Some(data_index));
                    assert(self.tree@.contains_key(self.paths@[i as int]));
                }
                EntryKind::File(&self.files[data_index as usize])
            },
            NodeContent::Dir { child_index, child_count } => {
                proof {
                    assert(self.block_ok(i as int));
                }
                let n = self.contents.len();
                let mut v: Vec<u64> = Vec::new();
                let mut t: usize = 0;
                while t < child_count
                    invariant
                        t <= child_count,
                        child_index + child_count <= n,
                        v@.len() == t,
                        root == C::root_inode(),
                        forall|k: int| 0 <= k < t ==> #[trigger] v@[k] == entry_number::<C>(child_index + k),
                    decreases child_count - t,
                {
                    v.push(((child_index + t) as u64).wrapping_sub(root));
                    t = t + 1;
                }
                EntryKind::Dir(v)
            },
        };
        Ok(Entry { inode: number, name, kind })
    }

    /// The inode of `path` below the root.
    pub fn lookup(&self, path: &str) -> (r: Result<u64, RofsError>)
        requires
            self.wf(),
        ensures
            r == match self.resolve(0, path@) {
                Some(i) => Ok::<u64, RofsError>(inode_number::<C>(i as u32)),
                None => Err(RofsError::NotFound),
            },
    {
        let root = C::inode_root();
        assert(node_index::<C>(root) == 0);
        self.lookup_in_dir(root, path)
    }

    /// The inode of `path` below the directory with inode `parent_inode`;
    /// ASCII case is ignored when the path as given is not found.
    pub fn lookup_in_dir(&self, parent_inode: u64, path: &str) -> (r: Result<u64, RofsError>)
        requires
            self.wf(),
        ensures
            r == match self.resolve(node_index::<C>(parent_inode) as int, path@) {
                Some(i) => Ok::<u64, RofsError>(inode_number::<C>(i as u32)),
                None => Err(RofsError::NotFound),
            },
    {
        let root = C::inode_root();
        let parent = parent_inode.wrapping_sub(root) as u32;
        let text = chars_of(path);
        let mut norm = normalize_exec::<C>(&text);
        let cs = components_exec::<C>(&norm);
        let found = match self.find_exec(parent, &cs) {
            Some(i) => Some(i),
            None => {
                let changed = make_lower(&mut norm);
                if changed {
                    let lowered = components_exec::<C>(&norm);
                    self.find_exec(parent, &lowered)
                } else {
                    None
                }
            },
        };
        match found {
            Some(i) => Ok((i as u64).wrapping_add(root)),
            None => Err(RofsError::NotFound),
        }
    }

    /// How many files the filesystem holds data for.
    pub fn file_count(&self) -> (n: usize)
        ensures
            n == self.files().len(),
    {
        self.files.len()
    }
}

} // verus!
