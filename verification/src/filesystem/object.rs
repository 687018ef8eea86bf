//! A filesystem under construction: files are added with their paths,
//! objects are merged, and the result is frozen into a [`Rofs`].

use core::marker::PhantomData;

use vstd::prelude::*;

use crate::archives::chars_of;
use crate::filesystem::path::{
    components_exec, comps, has_upper, is_upper, lemma_comps_no_upper, lemma_lower_no_upper,
    lemma_upper_in_comps, lower, make_lower, normalize, normalize_exec,
};
use crate::filesystem::tree::{
    comparable, data_below, file_above, insert_at, lemma_insert_at_fresh, lemma_insert_at_shape,
    merge_tree, names_fit_at, shift, Path, Table, Tree,
};
use crate::filesystem::{Config, DefaultConfig, Rofs};

verus! {

/// The components under which a file path is stored: the path with `..`
/// resolved, ASCII lowercased, split at the separators.
pub open spec fn file_comps<C: Config>(p: Seq<char>) -> Path {
    comps::<C>(lower(normalize::<C>(p)))
}

/// The tree of the files at `ps`, added one after the other, the file at
/// `ps[i]` with data index `i`.
pub open spec fn build_tree<C: Config>(ps: Seq<Seq<char>>) -> Tree
    decreases ps.len(),
{
    if ps.len() == 0 {
        Tree::empty()
    } else {
        insert_at(
            build_tree::<C>(ps.drop_last()),
            Seq::empty(),
            file_comps::<C>(ps.last()),
            (ps.len() - 1) as u32,
        )
    }
}

/// Whether, adding the files at `ps` one after the other, each name that
/// an insertion passes is at most 255 bytes long.
pub open spec fn names_fit<C: Config>(ps: Seq<Seq<char>>) -> bool {
    forall|k: int|
        0 <= k < ps.len() ==> names_fit_at(
            #[trigger] build_tree::<C>(ps.take(k)),
            file_comps::<C>(ps[k]),
        )
}

pub open spec fn entry_paths<T>(es: Seq<(String, T)>) -> Seq<Seq<char>> {
    es.map_values(|e: (String, T)| e.0@)
}

pub open spec fn entry_files<T>(es: Seq<(String, T)>) -> Seq<T> {
    es.map_values(|e: (String, T)| e.1)
}

/// Inserting keeps every data index below a bound that `d` is below.
pub proof fn lemma_insert_at_data(m: Tree, base: Path, rest: Path, d: u32, bound: int)
    requires
        data_below(m, 0, bound),
        d < bound,
    ensures
        data_below(insert_at(m, base, rest, d), 0, bound),
    decreases rest.len(),
{
    if rest.len() > 0 {
        let q = base.push(rest[0]);
        if m.contains_key(q) {
            if m[q] is None {
                lemma_insert_at_data(m, q, rest.drop_first(), d, bound);
            }
        } else if rest.len() > 1 {
            lemma_insert_at_data(m.insert(q, None), q, rest.drop_first(), d, bound);
        }
    }
}


/// Every node of the tree of `ps` lies on the stored path of one of the
/// files, and every file node is the stored path of the file whose data
/// index it holds.
pub proof fn lemma_build_shape<C: Config>(ps: Seq<Seq<char>>)
    requires
        ps.len() <= 0x1_0000_0000,
    ensures
        forall|q: Path| #[trigger]
            build_tree::<C>(ps).contains_key(q) ==> exists|j: int|
                0 <= j < ps.len() && 0 < q.len() <= file_comps::<C>(ps[j]).len() && q
                    == #[trigger] file_comps::<C>(ps[j]).take(q.len() as int),
        forall|q: Path| #[trigger]
            build_tree::<C>(ps).contains_key(q) && build_tree::<C>(ps)[q] is Some ==> build_tree::<
                C,
            >(ps)[q]->0 < ps.len() && q == file_comps::<C>(ps[build_tree::<C>(ps)[q]->0 as int]),
    decreases ps.len(),
{
    if ps.len() > 0 {
        let prev = ps.drop_last();
        let n = ps.len() - 1;
        let fc = file_comps::<C>(ps.last());
        lemma_build_shape::<C>(prev);
        lemma_insert_at_shape(build_tree::<C>(prev), Seq::empty(), fc, n as u32);
        assert(Seq::<Seq<char>>::empty() + fc =~= fc);
        let t = build_tree::<C>(ps);
        assert forall|q: Path| #[trigger] t.contains_key(q) implies exists|j: int|
            0 <= j < ps.len() && 0 < q.len() <= file_comps::<C>(ps[j]).len() && q
                == #[trigger] file_comps::<C>(ps[j]).take(q.len() as int) by {
            if build_tree::<C>(prev).contains_key(q) {
                let j = choose|j: int|
                    0 <= j < prev.len() && 0 < q.len() <= file_comps::<C>(prev[j]).len() && q
                        == #[trigger] file_comps::<C>(prev[j]).take(q.len() as int);
                assert(prev[j] == ps[j]);
            } else {
                assert(ps[n] == ps.last());
                assert(q == file_comps::<C>(ps[n]).take(q.len() as int));
            }
        }
        assert forall|q: Path| #[trigger] t.contains_key(q) && t[q] is Some implies t[q]->0
            < ps.len() && q == file_comps::<C>(ps[t[q]->0 as int]) by {
            if build_tree::<C>(prev).contains_key(q) {
                assert(prev[build_tree::<C>(prev)[q]->0 as int] == ps[build_tree::<C>(prev)[q]->0 as int]);
            } else {
                assert(ps[n] == ps.last());
            }
        }
    }
}

/// Adding files keeps every node, with its data.
pub proof fn lemma_build_keeps<C: Config>(ps: Seq<Seq<char>>, i: int)
    requires
        0 <= i <= ps.len(),
    ensures
        forall|q: Path| #[trigger]
            build_tree::<C>(ps.take(i)).contains_key(q) ==> build_tree::<C>(ps).contains_key(q)
                && build_tree::<C>(ps)[q] == build_tree::<C>(ps.take(i))[q],
    decreases ps.len(),
{
    if i == ps.len() {
        assert(ps.take(i) =~= ps);
    } else {
        let prev = ps.drop_last();
        lemma_build_keeps::<C>(prev, i);
        assert(prev.take(i) =~= ps.take(i));
        lemma_insert_at_shape(
            build_tree::<C>(prev),
            Seq::empty(),
            file_comps::<C>(ps.last()),
            (ps.len() - 1) as u32,
        );
    }
}

/// The `i`-th file is stored at its path, with data index `i`, when the
/// stored path of no earlier file is a prefix of it or has it as a prefix.
pub proof fn lemma_first_stored<C: Config>(ps: Seq<Seq<char>>, i: int)
    requires
        0 <= i < ps.len() <= 0x1_0000_0000,
        file_comps::<C>(ps[i]).len() > 0,
        forall|j: int|
            0 <= j < i ==> !comparable(#[trigger] file_comps::<C>(ps[j]), file_comps::<C>(ps[i])),
    ensures
        build_tree::<C>(ps).contains_key(file_comps::<C>(ps[i])),
        build_tree::<C>(ps)[file_comps::<C>(ps[i])] == Some(i as u32),
{
    let before = ps.take(i);
    let t = build_tree::<C>(before);
    let p = file_comps::<C>(ps[i]);
    lemma_build_shape::<C>(before);
    assert(Seq::<Seq<char>>::empty() + p =~= p);
    assert(!t.contains_key(p)) by {
        if t.contains_key(p) {
            let j = choose|j: int|
                0 <= j < before.len() && 0 < p.len() <= file_comps::<C>(before[j]).len() && p
                    == #[trigger] file_comps::<C>(before[j]).take(p.len() as int);
            assert(before[j] == ps[j]);
            assert(comparable(file_comps::<C>(ps[j]), p));
        }
    }
    assert forall|k: int|
        0 < k < p.len() && #[trigger] t.contains_key((Seq::<Seq<char>>::empty() + p).take(k)) implies t[(
        Seq::<Seq<char>>::empty() + p).take(k)] is None by {
        let q = p.take(k);
        if t[q] is Some {
            let d = t[q]->0 as int;
            assert(before[d] == ps[d]);
            assert(q == file_comps::<C>(ps[d]));
            assert(comparable(file_comps::<C>(ps[d]), p));
        }
    }
    lemma_insert_at_fresh(t, Seq::empty(), p, i as u32);
    let upto = ps.take(i + 1);
    assert(upto.drop_last() =~= before);
    assert(upto.last() == ps[i]);
    assert(build_tree::<C>(upto) == insert_at(t, Seq::empty(), p, i as u32));
    assert(build_tree::<C>(upto).contains_key(p));
    lemma_build_keeps::<C>(ps, i + 1);
}


/// A filesystem frozen from the files at `ps` finds, below the root, at
/// the stored path of the `i`-th file, the node of that file, with data
/// index `i`, when the stored path of no earlier file is a prefix of it or
/// has it as a prefix.
pub proof fn lemma_lookup_stored<T, C: Config>(r: &Rofs<T, C>, ps: Seq<Seq<char>>, i: int)
    requires
        r.wf(),
        r.tree() == build_tree::<C>(ps),
        0 <= i < ps.len() <= 0x1_0000_0000,
        file_comps::<C>(ps[i]).len() > 0,
        forall|j: int|
            0 <= j < i ==> !comparable(#[trigger] file_comps::<C>(ps[j]), file_comps::<C>(ps[i])),
    ensures
        r.find(0, file_comps::<C>(ps[i])) is Some,
        r.node_path(r.find(0, file_comps::<C>(ps[i]))->0) == file_comps::<C>(ps[i]),
        r.node_data(r.find(0, file_comps::<C>(ps[i]))->0) == Some(i as u32),
{
    let p = file_comps::<C>(ps[i]);
    lemma_first_stored::<C>(ps, i);
    r.lemma_nodes();
    let k = choose|k: int| 1 <= k < r.node_count() && #[trigger] r.node_path(k) == p;
    assert(r.node_path(0) + p =~= p);
    assert(r.node_path(k) == r.node_path(0) + p);
    let f = r.find(0, p)->0;
    assert(r.node_path(f) == p);
    assert(f == k);
}


/// A filesystem frozen from merged objects (`merge_tree(a, b, off)`, `off`
/// the first's file count) finds, below the root, every path of the first
/// with its data; every path of the second that the first has no node at
/// and no file above, with the second's data moved up by `off`; and no
/// other path.
pub proof fn lemma_merged_lookup<T, C: Config>(r: &Rofs<T, C>, a: Tree, b: Tree, off: u32, p: Path)
    requires
        r.wf(),
        r.tree() == merge_tree(a, b, off),
        p.len() > 0,
    ensures
        a.contains_key(p) ==> r.find(0, p) is Some && r.node_data(r.find(0, p)->0) == a[p],
        !a.contains_key(p) && b.contains_key(p) && !file_above(a, p) ==> r.find(0, p) is Some
            && r.node_data(r.find(0, p)->0) == shift(b[p], off),
        !a.contains_key(p) && !(b.contains_key(p) && !file_above(a, p)) ==> r.find(0, p) is None,
{
    r.lemma_nodes();
    assert(r.node_path(0) + p =~= p);
    if r.tree().contains_key(p) {
        let k = choose|k: int| 1 <= k < r.node_count() && #[trigger] r.node_path(k) == p;
        assert(r.node_path(k) == r.node_path(0) + p);
        let f = r.find(0, p)->0;
        assert(r.node_path(f) == p);
        assert(f == k);
    } else {
        if r.find(0, p) is Some {
            let f = r.find(0, p)->0;
            assert(r.node_path(f) == p);
            assert(f != 0);
        }
    }
}

/// Every node of the tree of `ps` has names without ASCII capitals.
pub proof fn lemma_build_lower<C: Config>(ps: Seq<Seq<char>>)
    requires
        ps.len() <= 0x1_0000_0000,
    ensures
        forall|q: Path, k: int|
            #![trigger build_tree::<C>(ps).contains_key(q), q[k]]
            build_tree::<C>(ps).contains_key(q) && 0 <= k < q.len() ==> !has_upper(q[k]),
{
    lemma_build_shape::<C>(ps);
    assert forall|q: Path, k: int|
        #![trigger build_tree::<C>(ps).contains_key(q), q[k]]
        build_tree::<C>(ps).contains_key(q) && 0 <= k < q.len() implies !has_upper(q[k]) by {
        let j = choose|j: int|
            0 <= j < ps.len() && 0 < q.len() <= file_comps::<C>(ps[j]).len() && q
                == #[trigger] file_comps::<C>(ps[j]).take(q.len() as int);
        let lowered = lower(normalize::<C>(ps[j]));
        lemma_lower_no_upper(normalize::<C>(ps[j]));
        lemma_comps_no_upper::<C>(lowered);
        assert(q[k] == file_comps::<C>(ps[j])[k]);
    }
}

/// Lookups in a filesystem frozen from the files at `ps` ignore ASCII
/// case: below any node, `text` finds the node at the stored components of
/// `text` (given that no capital letter is a separator).
pub proof fn lemma_lookup_any_case<T, C: Config>(
    r: &Rofs<T, C>,
    ps: Seq<Seq<char>>,
    parent: int,
    text: Seq<char>,
)
    requires
        r.wf(),
        r.tree() == build_tree::<C>(ps),
        ps.len() <= 0x1_0000_0000,
        forall|c: char| is_upper(c) ==> !#[trigger] C::separator(c),
    ensures
        r.resolve(parent, text) == r.find(parent, file_comps::<C>(text)),
{
    let norm = normalize::<C>(text);
    lemma_lower_no_upper(norm);
    r.lemma_nodes();
    if has_upper(norm) {
        lemma_upper_in_comps::<C>(norm);
        let cs = comps::<C>(norm);
        let k = choose|k: int| 0 <= k < cs.len() && has_upper(#[trigger] cs[k]);
        if r.find(parent, cs) is Some {
            let j = r.find(parent, cs)->0;
            assert(0 <= parent < r.node_count());
            let p = r.node_path(j);
            assert(p == r.node_path(parent) + cs);
            assert(j != 0) by {
                if j == 0 {
                    assert(p.len() == 0);
                }
            }
            assert(r.tree().contains_key(p));
            lemma_build_lower::<C>(ps);
            assert(p[r.node_path(parent).len() + k] == cs[k]);
        }
    }
}


/// A filesystem frozen from the files at `ps` finds the `i`-th file, below
/// the root, at any text whose stored components are those of the file's
/// path (any ASCII case, any separators), when the stored path of no earlier
/// file is a prefix of it or has it as a prefix.
pub proof fn lemma_lookup_finds_file<T, C: Config>(
    r: &Rofs<T, C>,
    ps: Seq<Seq<char>>,
    i: int,
    text: Seq<char>,
)
    requires
        r.wf(),
        r.tree() == build_tree::<C>(ps),
        0 <= i < ps.len() <= 0x1_0000_0000,
        forall|c: char| is_upper(c) ==> !#[trigger] C::separator(c),
        file_comps::<C>(ps[i]).len() > 0,
        forall|j: int|
            0 <= j < i ==> !comparable(#[trigger] file_comps::<C>(ps[j]), file_comps::<C>(ps[i])),
        file_comps::<C>(text) == file_comps::<C>(ps[i]),
    ensures
        r.resolve(0, text) is Some,
        r.node_data(r.resolve(0, text)->0) == Some(i as u32),
{
    lemma_lookup_any_case::<T, C>(r, ps, 0, text);
    lemma_lookup_stored::<T, C>(r, ps, i);
}

/// Files added by path, not yet frozen.
pub struct RofsObject<T, C: Config = DefaultConfig> {
    table: Table,
    files: Vec<T>,
    config: PhantomData<C>,
}

/// The components under which `path` is stored.
pub fn file_components<C: Config>(path: &str) -> (r: Vec<Vec<char>>)
    ensures
        crate::filesystem::path::views(r@) == file_comps::<C>(path@),
{
    let cs = chars_of(path);
    let mut norm = normalize_exec::<C>(&cs);
    make_lower(&mut norm);
    components_exec::<C>(&norm)
}

/// Moves the paths and the data out of the pairs, in order.
fn unzip_entries<T>(entries: Vec<(String, T)>) -> (r: (Vec<String>, Vec<T>))
    ensures
        r.0@.len() == entries@.len(),
        r.1@ == entry_files(entries@),
        forall|i: int| 0 <= i < entries@.len() ==> #[trigger] r.0@[i]@ == entries@[i].0@,
{
    let ghost e0 = entries@;
    let n = entries.len();
    let mut entries = entries;
    let mut rev: Vec<(String, T)> = Vec::new();
    while entries.len() > 0
        invariant
            n == e0.len(),
            entries@.len() + rev@.len() == n,
            entries@ == e0.take(entries@.len() as int),
            forall|k: int| 0 <= k < rev@.len() ==> #[trigger] rev@[k] == e0[n - 1 - k],
        decreases entries@.len(),
    {
        let e = entries.pop().unwrap();
        rev.push(e);
        assert(entries@ =~= e0.take(entries@.len() as int));
    }
    let mut paths: Vec<String> = Vec::new();
    let mut files: Vec<T> = Vec::new();
    while rev.len() > 0
        invariant
            n == e0.len(),
            paths@.len() + rev@.len() == n,
            files@.len() == paths@.len(),
            forall|k: int| 0 <= k < rev@.len() ==> #[trigger] rev@[k] == e0[n - 1 - k],
            forall|k: int| 0 <= k < paths@.len() ==> #[trigger] paths@[k]@ == e0[k].0@,
            forall|k: int| 0 <= k < files@.len() ==> #[trigger] files@[k] == e0[k].1,
        decreases rev@.len(),
    {
        let (p, f) = rev.pop().unwrap();
        paths.push(p);
        files.push(f);
    }
    assert(files@ =~= entry_files(e0));
    (paths, files)
}

impl<T, C: Config> RofsObject<T, C> {
    pub closed spec fn wf(&self) -> bool {
        &&& self.table.wf()
        &&& self.files@.len() <= u32::MAX
        &&& data_below(self.table.tree(), 0, self.files@.len() as int)
    }

    /// The nodes: each path maps to `None` for a directory or to the data
    /// index of a file.
    pub closed spec fn tree(&self) -> Tree {
        self.table.tree()
    }

    /// The data of the files, by data index.
    pub closed spec fn files(&self) -> Seq<T> {
        self.files@
    }

    /// The object of the files `entries`, the `i`-th with data index `i`,
    /// each stored under its [`file_comps`]; a file whose path is taken,
    /// lies under a file or holds a directory is left out of the tree (see
    /// [`insert_at`]), its data kept. Each name that an insertion passes
    /// is at most 255 bytes long (see [`RofsObject::check_names`]).
    pub fn new(entries: Vec<(String, T)>) -> (r: Self)
        requires
            entries@.len() <= u32::MAX,
            names_fit::<C>(entry_paths(entries@)),
        ensures
            r.wf(),
            r.tree() == build_tree::<C>(entry_paths(entries@)),
            r.files() == entry_files(entries@),
    {
        let ghost ps = entry_paths(entries@);
        let n = entries.len();
        let (paths, files) = unzip_entries(entries);
        let mut table = Table::new();
        let mut i: usize = 0;
        while i < n
            invariant
                n == paths@.len(),
                n <= u32::MAX,
                ps.len() == n,
                forall|k: int| 0 <= k < n ==> #[trigger] paths@[k]@ == ps[k],
                i <= n,
                table.wf(),
                table.tree() == build_tree::<C>(ps.take(i as int)),
                data_below(table.tree(), 0, i as int),
            decreases n - i,
        {
            let cs = file_components::<C>(paths[i].as_str());
            let ghost before = table.tree();
            table.insert_path(&cs, i as u32);
            proof {
                let t = ps.take(i + 1);
                assert(t.drop_last() =~= ps.take(i as int));
                assert(t.last() == paths@[i as int]@);
                lemma_insert_at_data(
                    before,
                    Seq::empty(),
                    crate::filesystem::path::views(cs@),
                    i as u32,
                    i + 1,
                );
                assert(data_below(before, 0, i + 1));
            }
            i = i + 1;
        }
        assert(ps.take(n as int) =~= ps);
        RofsObject { table, files, config: PhantomData }
    }

    /// Whether the names of `entries` fit as [`RofsObject::new`] needs.
    pub fn check_names(entries: &Vec<(String, T)>) -> (b: bool)
        requires
            entries@.len() <= u32::MAX,
        ensures
            b == names_fit::<C>(entry_paths(entries@)),
    {
        let ghost ps = entry_paths(entries@);
        let n = entries.len();
        let mut table = Table::new();
        let mut i: usize = 0;
        while i < n
            invariant
                n == entries@.len(),
                n <= u32::MAX,
                ps == entry_paths(entries@),
                i <= n,
                table.wf(),
                table.tree() == build_tree::<C>(ps.take(i as int)),
                forall|k: int|
                    0 <= k < i ==> names_fit_at(
                        #[trigger] build_tree::<C>(ps.take(k)),
                        file_comps::<C>(ps[k]),
                    ),
            decreases n - i,
        {
            let cs = file_components::<C>(entries[i].0.as_str());
            proof {
                assert(ps[i as int] == entries@[i as int].0@);
            }
            if !table.path_fits(&cs) {
                return false;
            }
            table.insert_path(&cs, i as u32);
            proof {
                let t = ps.take(i + 1);
                assert(t.drop_last() =~= ps.take(i as int));
                assert(t.last() == ps[i as int]);
            }
            i = i + 1;
        }
        true
    }

    /// The object with no files.
    pub fn empty() -> (r: Self)
        ensures
            r.wf(),
            r.tree() == Tree::empty(),
            r.files() == Seq::<T>::empty(),
    {
        RofsObject { table: Table::new(), files: Vec::new(), config: PhantomData }
    }

    /// The files of both: the nodes of `other` join those of `self` as
    /// [`merge_tree`] says, its data indices moved past the files of
    /// `self`, whose data comes first.
    pub fn merge(self, other: Self) -> (r: Self)
        requires
            self.wf(),
            other.wf(),
            self.files().len() + other.files().len() <= u32::MAX,
        ensures
            r.wf(),
            r.tree() == merge_tree(self.tree(), other.tree(), self.files().len() as u32),
            r.files() == self.files() + other.files(),
    {
        let RofsObject { table: mut table, files: mut files, config } = self;
        let RofsObject { table: other_table, files: mut other_files, .. } = other;
        let off = files.len() as u32;
        proof {
            assert forall|p: Path| #[trigger]
                other_table.tree().contains_key(p) && other_table.tree()[p] is Some implies other_table.tree()[p]->0
                + off < 0x1_0000_0000 by {}
        }
        if table.node_count() == 1 && files.len() == 0 {
            proof {
                table.lemma_paths();
                assert(merge_tree(table.tree(), other_table.tree(), off) =~= other_table.tree()) by {
                    assert forall|p: Path| #[trigger] other_table.tree().contains_key(p) implies shift(
                        other_table.tree()[p],
                        0,
                    ) == other_table.tree()[p] by {}
                }
                assert(files@ + other_files@ =~= other_files@);
            }
            return RofsObject { table: other_table, files: other_files, config };
        }
        if other_table.node_count() == 1 && other_files.len() == 0 {
            proof {
                other_table.lemma_paths();
                assert(merge_tree(table.tree(), other_table.tree(), off) =~= table.tree());
                assert(files@ + other_files@ =~= files@);
            }
            return RofsObject { table, files, config };
        }
        let ghost a = table.tree();
        let ghost b = other_table.tree();
        table.merge_from(&other_table, off);
        let ghost f0 = files@;
        files.append(&mut other_files);
        proof {
            let m = merge_tree(a, b, off);
            assert forall|p: Path| #[trigger]
                m.contains_key(p) && m[p] is Some implies m[p]->0 < files@.len() by {
                if !a.contains_key(p) {
                    assert(b.contains_key(p) && b[p] is Some);
                }
            }
        }
        RofsObject { table, files, config }
    }

    /// Freezes the object into a filesystem with the same tree and data,
    /// its nodes breadth first.
    pub fn into_rofs(self) -> (r: Rofs<T, C>)
        requires
            self.wf(),
        ensures
            r.wf(),
            r.tree() == self.tree(),
            r.files() == self.files(),
            r.lays_out_breadth_first(),
    {
        let r = Rofs::from_table(self.table, self.files);
        proof {
            r.lemma_breadth_first();
        }
        r
    }
}

impl<T, C: Config> Default for RofsObject<T, C> {
    fn default() -> (r: Self)
        ensures
            r.wf(),
            r.tree() == Tree::empty(),
            r.files() == Seq::<T>::empty(),
    {
        Self::empty()
    }
}

} // verus!
