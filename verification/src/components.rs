//! Paths as sequences of components: the strings of a path are split at the
//! configured separators, and empty and `.` components are skipped, so that
//! `"a//./b"` and `["a", "b"]` name the same path.

pub mod order;
pub mod scan;

use core::cmp::Ordering;
use core::marker::PhantomData;

use vstd::prelude::*;
use vstd::string::StringSliceAdditionalSpecFns;
use vstd::utf8::encode_utf8;

use crate::components::order::{
    cmp_component_lists, fold_bytes, fold_case, lemma_ord_depends_on_folded, lemma_ord_fold_case,
    ord_components, views,
};
use crate::bhd5::{ascii_lower, spec_ascii_lower};

verus! {

/// How component names are compared.
#[derive(Clone, Copy, Debug, PartialEq, Eq, Structural)]
pub enum Normalize {
    /// Byte for byte.
    Exact,
    /// Ignoring ASCII case.
    AsciiCase,
}

/// A path syntax: its (ASCII) separators and how names are compared.
pub trait Config {
    spec fn separator(b: u8) -> bool;

    spec fn normalization() -> Normalize;

    fn is_separator(b: u8) -> (r: bool)
        ensures
            r == Self::separator(b),
    ;

    fn normalize() -> (r: Normalize)
        ensures
            r == Self::normalization(),
    ;
}

/// `/` separated, compared byte for byte.
#[derive(Clone, Copy, Debug)]
pub struct DefaultConfig;

impl Config for DefaultConfig {
    open spec fn separator(b: u8) -> bool {
        b == 0x2fu8
    }

    open spec fn normalization() -> Normalize {
        Normalize::Exact
    }

    fn is_separator(b: u8) -> (r: bool) {
        b == 0x2f
    }

    fn normalize() -> (r: Normalize) {
        Normalize::Exact
    }
}

/// `/` or `\` separated, compared ignoring ASCII case: the paths inside
/// DVDBND archives.
#[derive(Clone, Copy, Debug)]
pub struct DvdbndConfig;

impl Config for DvdbndConfig {
    open spec fn separator(b: u8) -> bool {
        b == 0x2fu8 || b == 0x5cu8
    }

    open spec fn normalization() -> Normalize {
        Normalize::AsciiCase
    }

    fn is_separator(b: u8) -> (r: bool) {
        b == 0x2f || b == 0x5c
    }

    fn normalize() -> (r: Normalize) {
        Normalize::AsciiCase
    }
}

/// The index of the first separator of `b`, if any.
pub open spec fn first_sep<C: Config>(b: Seq<u8>) -> Option<int>
    decreases b.len(),
{
    if b.len() == 0 {
        None
    } else if C::separator(b[0]) {
        Some(0)
    } else {
        match first_sep::<C>(b.drop_first()) {
            Some(i) => Some(i + 1),
            None => None,
        }
    }
}

/// The pieces of `b` between separators (`str::split`).
pub open spec fn split<C: Config>(b: Seq<u8>) -> Seq<Seq<u8>>
    decreases b.len(),
{
    match first_sep::<C>(b) {
        None => seq![b],
        Some(i) => if 0 <= i < b.len() {
            seq![b.subrange(0, i)] + split::<C>(b.subrange(i + 1, b.len() as int))
        } else {
            seq![b]
        },
    }
}

/// A piece is a component unless it is empty or `.`.
pub open spec fn is_component(p: Seq<u8>) -> bool {
    !(p.len() == 0 || (p.len() == 1 && p[0] == 0x2eu8))
}

pub open spec fn keep(ps: Seq<Seq<u8>>) -> Seq<Seq<u8>>
    decreases ps.len(),
{
    if ps.len() == 0 {
        ps
    } else if is_component(ps[0]) {
        seq![ps[0]] + keep(ps.drop_first())
    } else {
        keep(ps.drop_first())
    }
}

/// The components of the strings `parts`, in order.
pub open spec fn components_of<C: Config>(parts: Seq<Seq<u8>>) -> Seq<Seq<u8>>
    decreases parts.len(),
{
    if parts.len() == 0 {
        Seq::empty()
    } else {
        keep(split::<C>(parts[0])) + components_of::<C>(parts.drop_first())
    }
}

pub open spec fn bytes_of(parts: Seq<String>) -> Seq<Seq<u8>> {
    Seq::new(parts.len(), |i: int| encode_utf8(parts[i]@))
}

/// A path given as strings, each of which may hold separators.
pub struct Components<C> {
    pub parts: Vec<String>,
    pub config: PhantomData<C>,
}

/// A path given as one string.
pub struct ComponentStr<C> {
    pub path: String,
    pub config: PhantomData<C>,
}

/// The components of a path, one by one.
pub struct ComponentsIter<'a, C> {
    components: &'a Vec<String>,
    pos: usize,
    start_pos: usize,
    config: PhantomData<C>,
}

/// Values that can be read as a path.
pub trait AsComponents {
    spec fn path_parts(&self) -> Seq<String>;

    fn as_components<C: Config>(&self) -> (r: Components<C>)
        ensures
            r.parts@ == self.path_parts(),
    ;
}

impl AsComponents for String {
    open spec fn path_parts(&self) -> Seq<String> {
        seq![*self]
    }

    fn as_components<C: Config>(&self) -> (r: Components<C>) {
        Components::from_str(self)
    }
}

impl AsComponents for Vec<String> {
    open spec fn path_parts(&self) -> Seq<String> {
        self@
    }

    fn as_components<C: Config>(&self) -> (r: Components<C>) {
        Components::from_slice(self)
    }
}

impl<C: Config> Components<C> {
    pub open spec fn spec_components(&self) -> Seq<Seq<u8>> {
        components_of::<C>(bytes_of(self.parts@))
    }

    /// The path of one string.
    pub fn from_str(s: &String) -> (r: Components<C>)
        ensures
            r.parts@ == seq![*s],
    {
        let mut parts = Vec::new();
        parts.push(s.clone());
        Components { parts, config: PhantomData }
    }

    /// The path of several strings, one after the other.
    pub fn from_slice(s: &Vec<String>) -> (r: Components<C>)
        ensures
            r.parts@ == s@,
    {
        let mut parts = Vec::new();
        let mut i: usize = 0;
        while i < s.len()
            invariant
                i <= s@.len(),
                parts@ == s@.subrange(0, i as int),
            decreases s@.len() - i,
        {
            parts.push(s[i].clone());
            i = i + 1;
            assert(parts@ =~= s@.subrange(0, i as int));
        }
        assert(s@.subrange(0, s@.len() as int) =~= s@);
        Components { parts, config: PhantomData }
    }

    pub fn iter(&self) -> (r: ComponentsIter<'_, C>)
        ensures
            r.remaining() == self.spec_components(),
            r.wf(),
            r.parts() == self.parts@,
    {
        let it = ComponentsIter { components: &self.parts, pos: 0, start_pos: 0, config: PhantomData };
        proof {
            let ps = bytes_of(self.parts@);
            if ps.len() > 0 {
                assert(ps.skip(1) =~= ps.drop_first());
                assert(ps[0].subrange(0, ps[0].len() as int) =~= ps[0]);
            }
        }
        it
    }

    /// All components, in order.
    pub fn to_vec(&self) -> (r: Vec<Vec<u8>>)
        ensures
            view_all(r@) == self.spec_components(),
    {
        let mut it = self.iter();
        let mut out: Vec<Vec<u8>> = Vec::new();
        loop
            invariant
                it.wf(),
                it.parts() == self.parts@,
                view_all(out@) + it.remaining() == self.spec_components(),
            ensures
                view_all(out@) == self.spec_components(),
            decreases it.parts_left(), it.bytes_left(),
        {
            match it.next() {
                Some(c) => {
                    out.push(c);
                    assert(view_all(out@) + it.remaining() =~= self.spec_components());
                },
                None => {
                    assert(view_all(out@) =~= self.spec_components());
                    break;
                },
            }
        }
        out
    }
}

pub open spec fn view_all(v: Seq<Vec<u8>>) -> Seq<Seq<u8>> {
    Seq::new(v.len(), |i: int| v[i]@)
}

impl<'a, C: Config> ComponentsIter<'a, C> {
    pub closed spec fn parts(&self) -> Seq<String> {
        self.components@
    }

    pub closed spec fn wf(&self) -> bool {
        &&& self.pos <= self.components@.len()
        &&& self.pos < self.components@.len() ==> self.start_pos <= bytes_of(
            self.components@,
        )[self.pos as int].len()
        &&& self.pos == self.components@.len() ==> self.start_pos == 0
    }

    /// The components still to come.
    pub closed spec fn remaining(&self) -> Seq<Seq<u8>> {
        if self.pos < self.components@.len() {
            let b = bytes_of(self.components@)[self.pos as int];
            keep(split::<C>(b.subrange(self.start_pos as int, b.len() as int))) + components_of::<
                C,
            >(bytes_of(self.components@).skip(self.pos + 1))
        } else {
            Seq::empty()
        }
    }

    /// Strings not yet started.
    pub closed spec fn parts_left(&self) -> int {
        self.components@.len() - self.pos
    }

    /// Bytes left in the current string.
    pub closed spec fn bytes_left(&self) -> int {
        if self.pos < self.components@.len() {
            bytes_of(self.components@)[self.pos as int].len() - self.start_pos
        } else {
            0
        }
    }

    /// The next component, if any.
    pub fn next(&mut self) -> (r: Option<Vec<u8>>)
        requires
            old(self).wf(),
        ensures
            final(self).wf(),
            final(self).parts() == old(self).parts(),
            match r {
                None => old(self).remaining().len() == 0 && final(self).remaining().len() == 0,
                Some(c) => old(self).remaining().len() > 0 && c@ == old(self).remaining()[0]
                    && final(self).remaining() == old(self).remaining().drop_first() && (
                final(self).parts_left() < old(self).parts_left() || (final(self).parts_left()
                    == old(self).parts_left() && final(self).bytes_left() < old(
                    self,
                ).bytes_left())),
            },
    {
        let ghost rem0 = self.remaining();
        let ghost pl0 = self.parts_left();
        let ghost bl0 = self.bytes_left();
        loop
            invariant
                self.wf(),
                self.components == old(self).components,
                self.remaining() == rem0,
                self.parts_left() < pl0 || (self.parts_left() == pl0 && self.bytes_left() <= bl0),
                pl0 == old(self).parts_left(),
                bl0 == old(self).bytes_left(),
                rem0 == old(self).remaining(),
            decreases self.parts_left(), self.bytes_left(),
        {
            if self.pos >= self.components.len() {
                return None;
            }
            let s = self.components[self.pos].as_str();
            let b = s.as_bytes();
            let ghost parts = bytes_of(self.components@);
            assert(b@ == parts[self.pos as int]);
            let start = self.start_pos;
            let mut j = start;
            while j < b.len() && !C::is_separator(b[j])
                invariant
                    start <= j <= b@.len(),
                    forall|m: int| start <= m < j ==> !C::separator(#[trigger] b@[m]),
                decreases b@.len() - j,
            {
                j = j + 1;
            }
            let mut piece: Vec<u8> = Vec::new();
            let mut k = start;
            while k < j
                invariant
                    start <= k <= j <= b@.len(),
                    piece@ == b@.subrange(start as int, k as int),
                decreases j - k,
            {
                piece.push(b[k]);
                k = k + 1;
                assert(piece@ =~= b@.subrange(start as int, k as int));
            }
            let ghost tail = b@.subrange(start as int, b@.len() as int);
            proof {
                lemma_first_sep::<C>(tail, j - start);
                assert(piece@ =~= tail.subrange(0, j - start));
            }
            let ghost old_pos = self.pos;
            if j < b.len() {
                self.start_pos = j + 1;
                proof {
                    assert(tail.subrange(j - start + 1, tail.len() as int) =~= b@.subrange(
                        j + 1,
                        b@.len() as int,
                    ));
                    lemma_keep_cons(piece@, split::<C>(b@.subrange(j + 1, b@.len() as int)));
                }
            } else {
                self.pos = self.pos + 1;
                self.start_pos = 0;
                proof {
                    assert(split::<C>(tail) == seq![tail]);
                    assert(tail =~= piece@);
                    lemma_keep_cons(piece@, Seq::empty());
                    assert(keep(Seq::<Seq<u8>>::empty()) =~= Seq::<Seq<u8>>::empty());
                    assert(seq![piece@] =~= seq![piece@] + Seq::<Seq<u8>>::empty());
                    let rest = parts.skip(old_pos + 1);
                    if old_pos + 1 < parts.len() {
                        assert(rest[0] == parts[old_pos + 1]);
                        assert(rest.drop_first() =~= parts.skip(old_pos + 2));
                        let nb = parts[old_pos + 1];
                        assert(nb.subrange(0, nb.len() as int) =~= nb);
                    } else {
                        assert(rest.len() == 0);
                    }
                }
            }
            if is_component_exec(&piece) {
                return Some(piece);
            }
        }
    }
}

fn is_component_exec(p: &Vec<u8>) -> (r: bool)
    ensures
        r == is_component(p@),
{
    !(p.len() == 0 || (p.len() == 1 && p[0] == 0x2e))
}

/// Where the first separator is.
proof fn lemma_first_sep<C: Config>(b: Seq<u8>, k: int)
    requires
        0 <= k <= b.len(),
        forall|m: int| 0 <= m < k ==> !C::separator(#[trigger] b[m]),
        k < b.len() ==> C::separator(b[k]),
    ensures
        first_sep::<C>(b) == if k < b.len() {
            Some(k)
        } else {
            None::<int>
        },
        split::<C>(b) == if k < b.len() {
            seq![b.subrange(0, k)] + split::<C>(b.subrange(k + 1, b.len() as int))
        } else {
            seq![b]
        },
    decreases k,
{
    if k > 0 {
        let t = b.drop_first();
        assert forall|m: int| 0 <= m < k - 1 implies !C::separator(#[trigger] t[m]) by {
            assert(t[m] == b[m + 1]);
        }
        if k < b.len() {
            assert(t[k - 1] == b[k]);
        }
        lemma_first_sep::<C>(t, k - 1);
        assert(!C::separator(b[0]));
    }
}

/// Keeping the components of a piece followed by others.
proof fn lemma_keep_cons(p: Seq<u8>, rest: Seq<Seq<u8>>)
    ensures
        keep(seq![p] + rest) == if is_component(p) {
            seq![p] + keep(rest)
        } else {
            keep(rest)
        },
{
    let ps = seq![p] + rest;
    assert(ps[0] == p);
    assert(ps.drop_first() =~= rest);
}


/// Whether two path syntaxes together compare ignoring ASCII case.
pub open spec fn ascii_case<C: Config, D: Config>() -> bool {
    C::normalization() == Normalize::AsciiCase || D::normalization() == Normalize::AsciiCase
}

impl<C: Config> Components<C> {
    /// Compares with a path of any syntax; ASCII case is ignored when
    /// either syntax ignores it.
    pub fn partial_cmp<D: Config>(&self, other: &Components<D>) -> (r: Option<Ordering>)
        ensures
            r == Some(
                ord_components(
                    ascii_case::<C, D>(),
                    self.spec_components(),
                    other.spec_components(),
                ),
            ),
    {
        let a = self.to_vec();
        let b = other.to_vec();
        let ascii = match (C::normalize(), D::normalize()) {
            (Normalize::AsciiCase, _) | (_, Normalize::AsciiCase) => true,
            _ => false,
        };
        proof {
            assert(views(a@) =~= view_all(a@));
            assert(views(b@) =~= view_all(b@));
        }
        Some(cmp_component_lists(&a, &b, ascii))
    }

    /// Whether the two paths have equal components.
    pub fn eq<D: Config>(&self, other: &Components<D>) -> (r: bool)
        ensures
            r == (ord_components(ascii_case::<C, D>(), self.spec_components(), other.spec_components())
                == Ordering::Equal),
    {
        match self.partial_cmp(other) {
            Some(Ordering::Equal) => true,
            _ => false,
        }
    }

    /// Compares with a path of the same syntax; ignoring case, the order
    /// is that of the lowercased components.
    pub fn cmp(&self, other: &Components<C>) -> (r: Ordering)
        ensures
            r == ord_components(
                C::normalization() == Normalize::AsciiCase,
                self.spec_components(),
                other.spec_components(),
            ),
            C::normalization() == Normalize::AsciiCase ==> r == ord_components(
                true,
                fold_case(self.spec_components()),
                fold_case(other.spec_components()),
            ),
    {
        proof {
            lemma_ord_fold_case(self.spec_components(), other.spec_components());
            lemma_ord_fold_case(other.spec_components(), fold_case(self.spec_components()));
        }
        match self.partial_cmp(other) {
            Some(o) => o,
            None => Ordering::Equal,
        }
    }
}

/// The 16 bytes of `c` from `i` on, ASCII lowercased, zeros past its end.
pub open spec fn hash_block(c: Seq<u8>, i: int) -> Seq<u8> {
    Seq::new(16, |k: int| if i + k < c.len() { spec_ascii_lower(c[i + k]) } else { 0u8 })
}

/// The blocks of `c` from `i` on, as hashing feeds them after the length.
pub open spec fn hash_blocks(c: Seq<u8>, i: int) -> Seq<Seq<u8>>
    decreases c.len() - i,
{
    if i < 0 || i >= c.len() {
        Seq::empty()
    } else if i + 16 >= c.len() {
        seq![hash_block(c, i)]
    } else {
        seq![hash_block(c, i)] + hash_blocks(c, i + 16)
    }
}

/// What hashing a component writes, after its length.
fn component_hash_blocks(c: &Vec<u8>) -> (r: Vec<Vec<u8>>)
    ensures
        views(r@) == hash_blocks(c@, 0),
{
    let n = c.len();
    let mut out: Vec<Vec<u8>> = Vec::new();
    let mut i: usize = 0;
    assert(views(out@) =~= Seq::<Seq<u8>>::empty());
    while i < n
        invariant
            n == c@.len(),
            i <= n,
            views(out@) + hash_blocks(c@, i as int) == hash_blocks(c@, 0),
        decreases n - i,
    {
        let mut b: Vec<u8> = Vec::new();
        let mut k: usize = 0;
        while k < 16
            invariant
                n == c@.len(),
                i < n,
                k <= 16,
                b@ == hash_block(c@, i as int).take(k as int),
            decreases 16 - k,
        {
            let x = if k < n - i {
                ascii_lower(c[i + k])
            } else {
                0
            };
            b.push(x);
            k = k + 1;
            assert(b@ =~= hash_block(c@, i as int).take(k as int));
        }
        assert(b@ =~= hash_block(c@, i as int));
        let ghost before = views(out@);
        out.push(b);
        let next = if n - i > 16 {
            i + 16
        } else {
            n
        };
        proof {
            assert(views(out@) =~= before.push(hash_block(c@, i as int)));
            if next == n {
                assert(hash_blocks(c@, i as int) =~= seq![hash_block(c@, i as int)]);
                assert(hash_blocks(c@, n as int) =~= Seq::<Seq<u8>>::empty());
                assert(seq![hash_block(c@, i as int)] + Seq::<Seq<u8>>::empty() =~= seq![
                    hash_block(c@, i as int),
                ]);
            } else {
                assert(hash_blocks(c@, i as int) == seq![hash_block(c@, i as int)] + hash_blocks(
                    c@,
                    i + 16,
                ));
            }
            assert(views(out@) + hash_blocks(c@, next as int) =~= before + hash_blocks(
                c@,
                i as int,
            ));
        }
        i = next;
    }
    assert(hash_blocks(c@, n as int) =~= Seq::<Seq<u8>>::empty());
    assert(views(out@) + Seq::<Seq<u8>>::empty() =~= views(out@));
    out
}

/// What hashing writes for components `cs`: each one's length, then its
/// blocks.
pub open spec fn hash_input_of(cs: Seq<Seq<u8>>) -> Seq<(int, Seq<Seq<u8>>)> {
    Seq::new(cs.len(), |i: int| (cs[i].len() as int, hash_blocks(cs[i], 0)))
}

proof fn lemma_hash_blocks_fold(a: Seq<u8>, b: Seq<u8>, i: int)
    requires
        fold_bytes(a) == fold_bytes(b),
    ensures
        hash_blocks(a, i) == hash_blocks(b, i),
    decreases a.len() - i,
{
    assert(a.len() == fold_bytes(a).len());
    assert(b.len() == fold_bytes(b).len());
    if 0 <= i < a.len() {
        assert forall|k: int| 0 <= k < 16 implies #[trigger] hash_block(a, i)[k] == hash_block(b, i)[k] by {
            assert(a.len() == b.len());
            if i + k < a.len() {
                assert(fold_bytes(a)[i + k] == spec_ascii_lower(a[i + k]));
                assert(fold_bytes(b)[i + k] == spec_ascii_lower(b[i + k]));
                assert(fold_bytes(a)[i + k] == fold_bytes(b)[i + k]);
            }
        }
        assert(hash_block(a, i) =~= hash_block(b, i));
        if i + 16 < a.len() {
            lemma_hash_blocks_fold(a, b, i + 16);
        }
    }
}

/// Paths equal once ASCII lowercased give equal hash input, so hashing
/// agrees with equality that ignores case.
pub proof fn lemma_hash_input_ignores_case(a: Seq<Seq<u8>>, b: Seq<Seq<u8>>)
    requires
        fold_case(a) == fold_case(b),
    ensures
        hash_input_of(a) == hash_input_of(b),
{
    assert(a.len() == fold_case(a).len() && b.len() == fold_case(b).len());
    assert forall|i: int| 0 <= i < a.len() implies #[trigger] hash_input_of(a)[i] == hash_input_of(
        b,
    )[i] by {
        assert(fold_case(a)[i] == fold_case(b)[i]);
        assert(fold_bytes(a[i]).len() == a[i].len());
        assert(fold_bytes(b[i]).len() == b[i].len());
        lemma_hash_blocks_fold(a[i], b[i], 0);
    }
    assert(hash_input_of(a) =~= hash_input_of(b));
}

pub open spec fn hash_input_view(v: Seq<(usize, Vec<Vec<u8>>)>) -> Seq<(int, Seq<Seq<u8>>)> {
    Seq::new(v.len(), |i: int| (v[i].0 as int, views(v[i].1@)))
}

impl<C: Config> Components<C> {
    /// What hashing the path writes, in order: for each component its length
    /// in bytes, then its bytes ASCII lowercased in 16-byte blocks, the last
    /// one padded with zeros. Equal paths, case ignored, give equal input.
    pub fn hash_input(&self) -> (r: Vec<(usize, Vec<Vec<u8>>)>)
        ensures
            hash_input_view(r@) == hash_input_of(self.spec_components()),
    {
        let cs = self.to_vec();
        let mut out: Vec<(usize, Vec<Vec<u8>>)> = Vec::new();
        let mut i: usize = 0;
        while i < cs.len()
            invariant
                i <= cs@.len(),
                view_all(cs@) == self.spec_components(),
                hash_input_view(out@) == hash_input_of(view_all(cs@)).take(i as int),
            decreases cs@.len() - i,
        {
            let blocks = component_hash_blocks(&cs[i]);
            let ghost before = hash_input_view(out@);
            let ghost item = (cs@[i as int]@.len() as int, views(blocks@));
            out.push((cs[i].len(), blocks));
            proof {
                assert(hash_input_view(out@) =~= before.push(item));
                assert(view_all(cs@)[i as int] == cs@[i as int]@);
                assert(hash_input_of(view_all(cs@))[i as int] == item);
                assert(hash_input_of(view_all(cs@)).take(i + 1) =~= hash_input_of(
                    view_all(cs@),
                ).take(i as int).push(item));
            }
            i = i + 1;
        }
        assert(hash_input_of(view_all(cs@)).take(i as int) =~= hash_input_of(view_all(cs@)));
        out
    }
}

impl<C: Config> ComponentStr<C> {
    pub open spec fn spec_components(&self) -> Seq<Seq<u8>> {
        components_of::<C>(seq![encode_utf8(self.path@)])
    }

    /// Whether the two paths have equal components (ignoring ASCII case when
    /// the syntax does).
    pub fn eq(&self, other: &ComponentStr<C>) -> (r: bool)
        ensures
            r == (ord_components(
                C::normalization() == Normalize::AsciiCase,
                self.spec_components(),
                other.spec_components(),
            ) == Ordering::Equal),
    {
        match self.cmp(other) {
            Ordering::Equal => true,
            _ => false,
        }
    }

    /// Compares the two paths by their components.
    pub fn partial_cmp(&self, other: &ComponentStr<C>) -> (r: Option<Ordering>)
        ensures
            r == Some(
                ord_components(
                    C::normalization() == Normalize::AsciiCase,
                    self.spec_components(),
                    other.spec_components(),
                ),
            ),
    {
        Some(self.cmp(other))
    }

    /// Compares the two paths by their components; ignoring case, by their
    /// lowercased components.
    pub fn cmp(&self, other: &ComponentStr<C>) -> (r: Ordering)
        ensures
            r == ord_components(
                C::normalization() == Normalize::AsciiCase,
                self.spec_components(),
                other.spec_components(),
            ),
            C::normalization() == Normalize::AsciiCase ==> r == ord_components(
                true,
                fold_case(self.spec_components()),
                fold_case(other.spec_components()),
            ),
    {
        let a = self.as_components();
        let b = other.as_components();
        proof {
            assert(bytes_of(a.parts@) =~= seq![encode_utf8(self.path@)]);
            assert(bytes_of(b.parts@) =~= seq![encode_utf8(other.path@)]);
        }
        a.cmp(&b)
    }

    /// What hashing the path writes (see [`Components::hash_input`]).
    pub fn hash_input(&self) -> (r: Vec<(usize, Vec<Vec<u8>>)>)
        ensures
            hash_input_view(r@) == hash_input_of(self.spec_components()),
    {
        let a = self.as_components();
        proof {
            assert(bytes_of(a.parts@) =~= seq![encode_utf8(self.path@)]);
        }
        a.hash_input()
    }

    pub fn new(s: &String) -> (r: ComponentStr<C>)
        ensures
            r.path == *s,
    {
        ComponentStr { path: s.clone(), config: PhantomData }
    }

    /// The components of the path.
    pub fn as_components(&self) -> (r: Components<C>)
        ensures
            r.parts@ == seq![self.path],
    {
        Components::from_str(&self.path)
    }
}

/// The pieces of a split have no separator.
proof fn lemma_split_pieces<C: Config>(b: Seq<u8>)
    ensures
        forall|k: int| 0 <= k < split::<C>(b).len() ==> first_sep::<C>(#[trigger] split::<C>(b)[k]) is None,
    decreases b.len(),
{
    lemma_first_sep_found::<C>(b);
    match first_sep::<C>(b) {
        None => {},
        Some(i) => {
            if 0 <= i < b.len() {
                let rest = b.subrange(i + 1, b.len() as int);
                lemma_split_pieces::<C>(rest);
                lemma_no_sep_prefix::<C>(b, i);
                let s = split::<C>(b);
                assert forall|k: int| 0 <= k < s.len() implies first_sep::<C>(#[trigger] s[k]) is None by {
                    if k > 0 {
                        assert(s[k] == split::<C>(rest)[k - 1]);
                    }
                }
            }
        },
    }
}

/// A found separator is in range and nothing before it is one.
proof fn lemma_first_sep_found<C: Config>(b: Seq<u8>)
    ensures
        first_sep::<C>(b) matches Some(i) ==> 0 <= i < b.len() && C::separator(b[i]) && forall|
            m: int,
        | 0 <= m < i ==> !C::separator(#[trigger] b[m]),
        first_sep::<C>(b) is None ==> forall|m: int| 0 <= m < b.len() ==> !C::separator(#[trigger] b[m]),
    decreases b.len(),
{
    if b.len() > 0 && !C::separator(b[0]) {
        let t = b.drop_first();
        lemma_first_sep_found::<C>(t);
        match first_sep::<C>(t) {
            Some(j) => {
                assert(t[j] == b[j + 1]);
                assert forall|m: int| 0 <= m < j + 1 implies !C::separator(#[trigger] b[m]) by {
                    if m > 0 {
                        assert(b[m] == t[m - 1]);
                    }
                }
            },
            None => {
                assert forall|m: int| 0 <= m < b.len() implies !C::separator(#[trigger] b[m]) by {
                    if m > 0 {
                        assert(b[m] == t[m - 1]);
                    }
                }
            },
        }
    }
}

proof fn lemma_no_sep_prefix<C: Config>(b: Seq<u8>, i: int)
    requires
        0 <= i <= b.len(),
        forall|m: int| 0 <= m < i ==> !C::separator(#[trigger] b[m]),
    ensures
        first_sep::<C>(b.subrange(0, i)) is None,
{
    let p = b.subrange(0, i);
    lemma_first_sep::<C>(p, p.len() as int);
}

/// A list of pieces without separators has as components the pieces kept.
proof fn lemma_components_of_pieces<C: Config>(ps: Seq<Seq<u8>>)
    requires
        forall|k: int| 0 <= k < ps.len() ==> first_sep::<C>(#[trigger] ps[k]) is None,
    ensures
        components_of::<C>(ps) == keep(ps),
    decreases ps.len(),
{
    if ps.len() > 0 {
        let t = ps.drop_first();
        assert forall|k: int| 0 <= k < t.len() implies first_sep::<C>(#[trigger] t[k]) is None by {
            assert(t[k] == ps[k + 1]);
        }
        lemma_components_of_pieces::<C>(t);
        assert(split::<C>(ps[0]) == seq![ps[0]]);
        lemma_keep_cons(ps[0], Seq::empty());
        assert(keep(Seq::<Seq<u8>>::empty()) =~= Seq::<Seq<u8>>::empty());
        assert(seq![ps[0]] + Seq::<Seq<u8>>::empty() =~= seq![ps[0]]);
        lemma_keep_cons(ps[0], t);
        assert(ps =~= seq![ps[0]] + t);
    }
}

/// A path has the components of the list of its pieces: splitting it at its
/// separators first changes nothing.
pub proof fn lemma_split_path_components<C: Config>(path: Seq<u8>)
    ensures
        components_of::<C>(split::<C>(path)) == components_of::<C>(seq![path]),
{
    lemma_split_pieces::<C>(path);
    lemma_components_of_pieces::<C>(split::<C>(path));
    let one = seq![path];
    assert(one.drop_first() =~= Seq::<Seq<u8>>::empty());
    assert(components_of::<C>(Seq::<Seq<u8>>::empty()) =~= Seq::<Seq<u8>>::empty());
    assert(keep(split::<C>(path)) + Seq::<Seq<u8>>::empty() =~= keep(split::<C>(path)));
}

/// A path compares as the list of its pieces between separators does: with
/// any path, on either side, and whether or not case is ignored.
pub proof fn lemma_split_compares_same<C: Config>(
    p: Components<C>,
    s: Components<C>,
    q: Components<C>,
    ascii: bool,
)
    requires
        p.parts@.len() == 1,
        bytes_of(s.parts@) == split::<C>(bytes_of(p.parts@)[0]),
    ensures
        p.spec_components() == s.spec_components(),
        ord_components(ascii, p.spec_components(), q.spec_components()) == ord_components(
            ascii,
            s.spec_components(),
            q.spec_components(),
        ),
        ord_components(ascii, q.spec_components(), p.spec_components()) == ord_components(
            ascii,
            q.spec_components(),
            s.spec_components(),
        ),
{
    let path = bytes_of(p.parts@)[0];
    lemma_split_path_components::<C>(path);
    assert(bytes_of(p.parts@) =~= seq![path]);
}

/// Lowercasing keeps the separators where they are.
pub open spec fn case_keeps_separators<C: Config>() -> bool {
    forall|b: u8| #[trigger] C::separator(spec_ascii_lower(b)) == C::separator(b)
}

proof fn lemma_first_sep_fold<C: Config>(b: Seq<u8>)
    requires
        case_keeps_separators::<C>(),
    ensures
        first_sep::<C>(fold_bytes(b)) == first_sep::<C>(b),
    decreases b.len(),
{
    if b.len() > 0 {
        assert(fold_bytes(b)[0] == spec_ascii_lower(b[0]));
        assert(fold_bytes(b).drop_first() =~= fold_bytes(b.drop_first()));
        lemma_first_sep_fold::<C>(b.drop_first());
    }
}

proof fn lemma_split_fold<C: Config>(b: Seq<u8>)
    requires
        case_keeps_separators::<C>(),
    ensures
        split::<C>(fold_bytes(b)) == fold_case(split::<C>(b)),
    decreases b.len(),
{
    lemma_first_sep_fold::<C>(b);
    let f = fold_bytes(b);
    match first_sep::<C>(b) {
        None => {
            assert(fold_case(seq![b]) =~= seq![f]);
        },
        Some(i) => {
            if 0 <= i < b.len() {
                let rest = b.subrange(i + 1, b.len() as int);
                assert(f.subrange(0, i) =~= fold_bytes(b.subrange(0, i)));
                assert(f.subrange(i + 1, f.len() as int) =~= fold_bytes(rest));
                lemma_split_fold::<C>(rest);
                assert(fold_case(seq![b.subrange(0, i)] + split::<C>(rest)) =~= seq![
                    fold_bytes(b.subrange(0, i)),
                ] + fold_case(split::<C>(rest)));
            } else {
                assert(fold_case(seq![b]) =~= seq![f]);
            }
        },
    }
}

proof fn lemma_keep_fold(ps: Seq<Seq<u8>>)
    ensures
        keep(fold_case(ps)) == fold_case(keep(ps)),
    decreases ps.len(),
{
    if ps.len() > 0 {
        let f = fold_case(ps);
        assert(f[0] == fold_bytes(ps[0]));
        assert(f.drop_first() =~= fold_case(ps.drop_first()));
        assert(is_component(f[0]) == is_component(ps[0])) by {
            if ps[0].len() == 1 {
                assert(f[0][0] == spec_ascii_lower(ps[0][0]));
            }
        }
        lemma_keep_fold(ps.drop_first());
        if is_component(ps[0]) {
            assert(fold_case(seq![ps[0]] + keep(ps.drop_first())) =~= seq![f[0]] + fold_case(
                keep(ps.drop_first()),
            ));
        }
    } else {
        assert(fold_case(ps) =~= ps);
    }
}

proof fn lemma_components_fold<C: Config>(parts: Seq<Seq<u8>>)
    requires
        case_keeps_separators::<C>(),
    ensures
        components_of::<C>(fold_case(parts)) == fold_case(components_of::<C>(parts)),
    decreases parts.len(),
{
    if parts.len() > 0 {
        let f = fold_case(parts);
        assert(f[0] == fold_bytes(parts[0]));
        assert(f.drop_first() =~= fold_case(parts.drop_first()));
        lemma_split_fold::<C>(parts[0]);
        lemma_keep_fold(split::<C>(parts[0]));
        lemma_components_fold::<C>(parts.drop_first());
        assert(fold_case(keep(split::<C>(parts[0])) + components_of::<C>(parts.drop_first()))
            =~= fold_case(keep(split::<C>(parts[0]))) + fold_case(
            components_of::<C>(parts.drop_first()),
        ));
    } else {
        assert(fold_case(parts) =~= parts);
        assert(fold_case(Seq::<Seq<u8>>::empty()) =~= Seq::<Seq<u8>>::empty());
    }
}

/// Ignoring case, two paths whose strings are equal once lowercased (a
/// path and its uppercased form, say) compare the same with any path, on
/// either side, when lowercasing keeps the separators.
pub proof fn lemma_case_blind_paths<C: Config>(p: Components<C>, p2: Components<C>, q: Seq<Seq<u8>>)
    requires
        case_keeps_separators::<C>(),
        fold_case(bytes_of(p.parts@)) == fold_case(bytes_of(p2.parts@)),
    ensures
        fold_case(p.spec_components()) == fold_case(p2.spec_components()),
        ord_components(true, p.spec_components(), q) == ord_components(true, p2.spec_components(), q),
        ord_components(true, q, p.spec_components()) == ord_components(true, q, p2.spec_components()),
{
    lemma_components_fold::<C>(bytes_of(p.parts@));
    lemma_components_fold::<C>(bytes_of(p2.parts@));
    lemma_ord_depends_on_folded(p.spec_components(), p2.spec_components(), q);
}
/// Lowercasing keeps the separators of both path syntaxes.
pub proof fn lemma_configs_keep_separators()
    ensures
        case_keeps_separators::<DefaultConfig>(),
        case_keeps_separators::<DvdbndConfig>(),
{
}
} // verus!
