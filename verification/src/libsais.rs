//! A text of nul-terminated strings, prepared for generalized suffix arrays:
//! `\0s1\0s2\0...`, indexed (like a suffix array) from just after the
//! leading nul.

use vstd::prelude::*;
use vstd::string::StringSliceAdditionalSpecFns;
use vstd::utf8::encode_utf8;

verus! {

/// Why strings could not form a text.
#[derive(Clone, Copy, Debug, PartialEq, Eq, Structural)]
pub enum TextError {
    /// The text is bigger than 2 GB.
    TooLong,
    /// A string is empty.
    HasEmpty,
    /// A string contains a nul byte.
    HasNuls,
}

/// Errors of the suffix array library.
#[derive(Clone, Copy, Debug, PartialEq, Eq, Structural)]
pub enum LibsaisError {
    InvalidParameter,
    Internal(i32),
}

/// The strings, each followed by a nul, after one leading nul.
#[derive(Debug)]
pub struct Text {
    inner: Vec<u8>,
    count: usize,
}

/// The strings, each followed by a nul byte.
pub open spec fn joined(strs: Seq<Seq<u8>>) -> Seq<u8>
    decreases strs.len(),
{
    if strs.len() == 0 {
        Seq::empty()
    } else {
        joined(strs.drop_last()) + strs.last() + seq![0u8]
    }
}

pub open spec fn has_nul(s: Seq<u8>) -> bool {
    exists|i: int| 0 <= i < s.len() && s[i] == 0
}

/// The first refusal among the strings, in order.
pub open spec fn first_error(strs: Seq<Seq<u8>>) -> Option<TextError>
    decreases strs.len(),
{
    if strs.len() == 0 {
        None
    } else {
        match first_error(strs.drop_last()) {
            Some(e) => Some(e),
            None => if strs.last().len() == 0 {
                Some(TextError::HasEmpty)
            } else if has_nul(strs.last()) {
                Some(TextError::HasNuls)
            } else {
                None
            },
        }
    }
}

pub open spec fn string_bytes(v: Seq<String>) -> Seq<Seq<u8>> {
    Seq::new(v.len(), |i: int| encode_utf8(v[i]@))
}

/// A continuation byte of UTF-8 (`0b10xx_xxxx`): no character starts there.
pub open spec fn is_continuation(b: u8) -> bool {
    0x80 <= b < 0xc0
}

/// Where `s` has a character boundary: its ends and every byte that is not
/// a continuation byte.
pub open spec fn boundary(s: Seq<u8>, i: int) -> bool {
    i == 0 || i == s.len() || (0 < i < s.len() && !is_continuation(s[i]))
}

/// The index of the first nul of `s` at or after `from`.
pub open spec fn first_nul(s: Seq<u8>, from: int) -> Option<int>
    decreases s.len() - from,
{
    if from < 0 || from >= s.len() {
        None
    } else if s[from] == 0 {
        Some(from)
    } else {
        first_nul(s, from + 1)
    }
}

impl Text {
    /// The text after the leading nul.
    pub closed spec fn text(&self) -> Seq<u8> {
        self.inner@.drop_first()
    }

    /// The whole text, leading nul included.
    pub closed spec fn whole(&self) -> Seq<u8> {
        self.inner@
    }

    pub closed spec fn string_count(&self) -> nat {
        self.count as nat
    }

    pub closed spec fn wf(&self) -> bool {
        self.inner@.len() >= 1 && self.inner@[0] == 0
    }

    /// Joins `strs` into one text.
    pub fn new(strs: &Vec<String>) -> (r: Result<Text, TextError>)
        ensures
            match first_error(string_bytes(strs@)) {
                Some(e) => r == Err::<Text, TextError>(e),
                None => if joined(string_bytes(strs@)).len() > i32::MAX {
                    r == Err::<Text, TextError>(TextError::TooLong)
                } else {
                    r matches Ok(t) && t.wf() && t.text() == joined(string_bytes(strs@))
                        && t.whole() == seq![0u8] + t.text() && t.string_count() == strs@.len()
                },
            },
    {
        let ghost sb = string_bytes(strs@);
        let mut inner: Vec<u8> = Vec::new();
        inner.push(0);
        let mut count: usize = 0;
        let mut i: usize = 0;
        while i < strs.len()
            invariant
                i <= strs@.len(),
                count == i,
                sb == string_bytes(strs@),
                first_error(sb.take(i as int)) is None,
                inner@ == seq![0u8] + joined(sb.take(i as int)),
            decreases strs@.len() - i,
        {
            let s = strs[i].as_str().as_bytes();
            assert(s@ == sb[i as int]);
            assert(sb.take(i + 1).drop_last() =~= sb.take(i as int));
            if s.len() == 0 {
                proof {
                    lemma_first_error_prefix(sb, i + 1);
                }
                return Err(TextError::HasEmpty);
            }
            let mut j: usize = 0;
            while j < s.len()
                invariant
                    j <= s@.len(),
                    forall|k: int| 0 <= k < j ==> s@[k] != 0,
                    i < strs@.len(),
                    sb == string_bytes(strs@),
                    s@ == sb[i as int],
                    s@.len() > 0,
                    first_error(sb.take(i as int)) is None,
                    sb.take(i + 1).drop_last() == sb.take(i as int),
                decreases s@.len() - j,
            {
                if s[j] == 0 {
                    proof {
                        assert(has_nul(sb[i as int]));
                        lemma_first_error_prefix(sb, i + 1);
                    }
                    return Err(TextError::HasNuls);
                }
                j = j + 1;
            }
            let ghost before = inner@;
            let mut k: usize = 0;
            while k < s.len()
                invariant
                    k <= s@.len(),
                    inner@ == before + s@.subrange(0, k as int),
                decreases s@.len() - k,
            {
                inner.push(s[k]);
                k = k + 1;
                assert(inner@ =~= before + s@.subrange(0, k as int));
            }
            inner.push(0);
            proof {
                assert(s@.subrange(0, s@.len() as int) =~= s@);
                assert(inner@ =~= seq![0u8] + joined(sb.take(i + 1)));
            }
            count = count + 1;
            i = i + 1;
        }
        assert(sb.take(strs@.len() as int) =~= sb);
        if inner.len() - 1 > 0x7fff_ffff {
            return Err(TextError::TooLong);
        }
        let t = Text { inner, count };
        assert(t.text() =~= joined(sb));
        Ok(t)
    }

    /// Where the string at `index` ends: the first nul at or after it, if
    /// `index` is within the text at a character boundary.
    pub open spec fn end_of(&self, index: int) -> Option<int> {
        if 0 <= index <= self.text().len() && boundary(self.text(), index) {
            first_nul(self.text(), index)
        } else {
            None
        }
    }

    fn find_end(&self, index: u32) -> (r: Option<usize>)
        requires
            self.wf(),
        ensures
            r matches Some(e) ==> self.end_of(index as int) == Some(e as int) && index <= e
                < self.text().len(),
            r is None ==> self.end_of(index as int) is None,
    {
        let text_len = self.inner.len() - 1;
        let idx = index as usize;
        if idx > text_len {
            return None;
        }
        if idx > 0 && idx < text_len && self.inner[1 + idx] >= 0x80 && self.inner[1 + idx] < 0xc0 {
            return None;
        }
        let mut e = idx;
        while e < text_len && self.inner[1 + e] != 0
            invariant
                idx <= e <= text_len,
                text_len + 1 == self.inner@.len(),
                first_nul(self.text(), idx as int) == first_nul(self.text(), e as int),
            decreases text_len - e,
        {
            e = e + 1;
        }
        if e == text_len {
            return None;
        }
        Some(e)
    }

    /// The string starting at `index` of the text, up to the next nul; none
    /// if `index` is past the text or not at a character boundary, or no nul
    /// follows.
    pub fn get(&self, index: u32) -> (r: Option<&[u8]>)
        requires
            self.wf(),
        ensures
            match self.end_of(index as int) {
                Some(e) => r matches Some(s) && s@ == self.text().subrange(index as int, e),
                None => r is None,
            },
    {
        match self.find_end(index) {
            Some(e) => {
                let _n = self.inner.len();
                let r = vstd::slice::slice_subrange(self.inner.as_slice(), 1 + index as usize, 1 + e);
                assert(r@ =~= self.text().subrange(index as int, e as int));
                Some(r)
            },
            None => None,
        }
    }

    /// The length of the string starting at `index`, on the terms of `get`.
    pub fn prefix_len(&self, index: u32) -> (r: Option<usize>)
        requires
            self.wf(),
        ensures
            match self.end_of(index as int) {
                Some(e) => r == Some((e - index) as usize),
                None => r is None,
            },
    {
        match self.find_end(index) {
            Some(e) => Some(e - index as usize),
            None => None,
        }
    }

    /// The `len` bytes of the text from `index`, which must lie within the
    /// text at character boundaries.
    pub fn prefix(&self, index: u32, len: u64) -> (r: &[u8])
        requires
            self.wf(),
            index + len <= self.text().len(),
            boundary(self.text(), index as int),
            boundary(self.text(), index + len),
        ensures
            r@ == self.text().subrange(index as int, index + len),
    {
        let _n = self.inner.len();
        let start = 1 + index as usize;
        let r = vstd::slice::slice_subrange(self.inner.as_slice(), start, start + len as usize);
        assert(r@ =~= self.text().subrange(index as int, index + len));
        r
    }

    /// Whether the byte at `index` of the whole text (leading nul included)
    /// is a nul: whether a string starts at `index` of the text.
    pub fn is_nul(&self, index: u32) -> (r: bool)
        requires
            index < self.whole().len(),
        ensures
            r == (self.whole()[index as int] == 0),
    {
        self.inner[index as usize] == 0
    }

    /// The inverse of a suffix array: the rank of each suffix.
    pub fn isa(&self, gsa: &Vec<u32>) -> (r: Vec<u32>)
        requires
            gsa@.len() <= u32::MAX,
            forall|k: int| 0 <= k < gsa@.len() ==> #[trigger] gsa@[k] < gsa@.len(),
        ensures
            r@.len() == gsa@.len(),
            forall|i: int| 0 <= i < gsa@.len() ==> #[trigger] r@[i] == last_rank(gsa@, i, gsa@.len() as int),
            // When `gsa` lists each position once, the result is its inverse.
            (forall|a: int, b: int| 0 <= a < b < gsa@.len() ==> gsa@[a] != gsa@[b]) && (forall|i: int|
                0 <= i < gsa@.len() ==> #[trigger] gsa@.contains(i as u32)) ==> (forall|k: int|
                0 <= k < gsa@.len() ==> #[trigger] r@[gsa@[k] as int] == k) && (forall|i: int|
                0 <= i < gsa@.len() ==> #[trigger] gsa@[r@[i] as int] == i),
    {
        let n = gsa.len();
        let mut isa: Vec<u32> = Vec::new();
        let mut k: usize = 0;
        while k < n
            invariant
                k <= n,
                n == gsa@.len(),
                isa@.len() == k,
                forall|i: int| 0 <= i < k ==> isa@[i] == 0,
            decreases n - k,
        {
            isa.push(0);
            k = k + 1;
        }
        let mut r: usize = 0;
        while r < n
            invariant
                r <= n,
                n == gsa@.len(),
                n <= u32::MAX,
                isa@.len() == n,
                forall|k: int| 0 <= k < gsa@.len() ==> #[trigger] gsa@[k] < gsa@.len(),
                forall|i: int| 0 <= i < n ==> #[trigger] isa@[i] == last_rank(gsa@, i, r as int),
            decreases n - r,
        {
            let at = gsa[r] as usize;
            isa[at] = r as u32;
            r = r + 1;
        }
        proof {
            if (forall|a: int, b: int| 0 <= a < b < gsa@.len() ==> gsa@[a] != gsa@[b]) && (forall|
                i: int,
            | 0 <= i < gsa@.len() ==> #[trigger] gsa@.contains(i as u32)) {
                lemma_isa_inverse(gsa@, isa@);
            }
        }
        isa
    }

    /// The suffixes of the suffix array that start a string, in suffix order.
    pub fn strings_2(&self, gsa: &Vec<u32>) -> (r: Vec<u32>)
        requires
            self.text().len() == gsa@.len(),
            forall|k: int| 0 <= k < gsa@.len() ==> #[trigger] gsa@[k] < self.whole().len(),
        ensures
            r@ == starts(gsa@, self.whole()),
    {
        let mut out: Vec<u32> = Vec::new();
        let mut k: usize = 0;
        while k < gsa.len()
            invariant
                k <= gsa@.len(),
                forall|j: int| 0 <= j < gsa@.len() ==> #[trigger] gsa@[j] < self.whole().len(),
                out@ == starts(gsa@.take(k as int), self.whole()),
            decreases gsa@.len() - k,
        {
            let index = gsa[k];
            assert(gsa@.take(k + 1).drop_last() =~= gsa@.take(k as int));
            if self.is_nul(index) {
                out.push(index);
            }
            k = k + 1;
        }
        assert(gsa@.take(gsa@.len() as int) =~= gsa@);
        out
    }

    /// The strings of the text with the index where each starts.
    pub fn strings(&self) -> (r: Vec<(usize, Vec<u8>)>)
        requires
            self.wf(),
        ensures
            pieces_view(r@) == nul_pieces(self.text(), 0),
    {
        let text_len = self.inner.len() - 1;
        let mut out: Vec<(usize, Vec<u8>)> = Vec::new();
        let mut i: usize = 0;
        while i < text_len
            invariant
                i <= text_len,
                text_len + 1 == self.inner@.len(),
                self.text().len() == text_len,
                pieces_view(out@) + nul_pieces(self.text(), i as int) == nul_pieces(self.text(), 0),
            decreases text_len - i,
        {
            let mut e = i;
            while e < text_len && self.inner[1 + e] != 0
                invariant
                    i <= e <= text_len,
                    text_len + 1 == self.inner@.len(),
                    first_nul(self.text(), i as int) == first_nul(self.text(), e as int),
                decreases text_len - e,
            {
                e = e + 1;
            }
            let mut piece: Vec<u8> = Vec::new();
            let mut k = i;
            while k < e
                invariant
                    i <= k <= e <= text_len,
                    text_len + 1 == self.inner@.len(),
                    piece@ == self.text().subrange(i as int, k as int),
                decreases e - k,
            {
                piece.push(self.inner[1 + k]);
                k = k + 1;
                assert(piece@ =~= self.text().subrange(i as int, k as int));
            }
            let ghost before = pieces_view(out@);
            let ghost i0 = i as int;
            out.push((i, piece));
            proof {
                assert(pieces_view(out@) =~= before.push((i as int, self.text().subrange(i as int, e as int))));
            }
            if e < text_len {
                i = e + 1;
            } else {
                i = e;
            }
            proof {
                lemma_first_nul(self.text(), i0);
                if e < text_len {
                    assert(self.text()[e as int] == self.inner@[1 + e]);
                    assert(first_nul(self.text(), e as int) == Some(e as int));
                } else {
                    assert(self.text().subrange(i0, e as int) =~= self.text().subrange(
                        i0,
                        self.text().len() as int,
                    ));
                }
                assert(pieces_view(out@) + nul_pieces(self.text(), i as int) =~= before
                    + nul_pieces(self.text(), i0));
            }
        }
        proof {
            assert(pieces_view(out@) + Seq::empty() =~= pieces_view(out@));
        }
        out
    }
}

/// The rank last written for suffix `i` by the first `r` ranks of `gsa`.
pub open spec fn last_rank(gsa: Seq<u32>, i: int, r: int) -> u32
    decreases r,
{
    if r <= 0 {
        0
    } else if gsa[r - 1] == i {
        (r - 1) as u32
    } else {
        last_rank(gsa, i, r - 1)
    }
}

/// The suffixes of `gsa` preceded by a nul in `whole`.
pub open spec fn starts(gsa: Seq<u32>, whole: Seq<u8>) -> Seq<u32>
    decreases gsa.len(),
{
    if gsa.len() == 0 {
        Seq::empty()
    } else if whole[gsa.last() as int] == 0 {
        starts(gsa.drop_last(), whole).push(gsa.last())
    } else {
        starts(gsa.drop_last(), whole)
    }
}

/// The nul-terminated pieces of `s` from `from` on, with where each starts
/// (`str::split_terminator`).
pub open spec fn nul_pieces(s: Seq<u8>, from: int) -> Seq<(int, Seq<u8>)>
    decreases s.len() - from,
{
    if from < 0 || from >= s.len() {
        Seq::empty()
    } else {
        match first_nul(s, from) {
            Some(e) => if from <= e < s.len() {
                seq![(from, s.subrange(from, e))] + nul_pieces(s, e + 1)
            } else {
                Seq::empty()
            },
            None => seq![(from, s.subrange(from, s.len() as int))],
        }
    }
}

pub open spec fn pieces_view(v: Seq<(usize, Vec<u8>)>) -> Seq<(int, Seq<u8>)> {
    Seq::new(v.len(), |k: int| (v[k].0 as int, v[k].1@))
}

/// For a suffix array without repeats, `isa` inverts it: the rank recorded
/// for the suffix at rank `r` is `r`.
pub proof fn lemma_isa_inverts(gsa: Seq<u32>, r: int, n: int)
    requires
        forall|a: int, b: int| 0 <= a < b < gsa.len() ==> gsa[a] != gsa[b],
        0 <= r < n <= gsa.len(),
        gsa.len() <= u32::MAX + 1,
    ensures
        last_rank(gsa, gsa[r] as int, n) == r,
    decreases n,
{
    if n - 1 > r {
        assert(gsa[n - 1] != gsa[r]);
        lemma_isa_inverts(gsa, r, n - 1);
    }
}

/// For a suffix array that lists each position once, `isa` is its inverse
/// permutation: `isa[gsa[r]] == r` and `gsa[isa[i]] == i`.
pub proof fn lemma_isa_inverse(gsa: Seq<u32>, isa: Seq<u32>)
    requires
        gsa.len() <= u32::MAX,
        forall|a: int, b: int| 0 <= a < b < gsa.len() ==> gsa[a] != gsa[b],
        forall|r: int| 0 <= r < gsa.len() ==> #[trigger] gsa[r] < gsa.len(),
        forall|i: int| 0 <= i < gsa.len() ==> #[trigger] gsa.contains(i as u32),
        isa.len() == gsa.len(),
        forall|i: int| 0 <= i < gsa.len() ==> #[trigger] isa[i] == last_rank(gsa, i, gsa.len() as int),
    ensures
        forall|r: int| 0 <= r < gsa.len() ==> #[trigger] isa[gsa[r] as int] == r,
        forall|i: int| 0 <= i < gsa.len() ==> #[trigger] gsa[isa[i] as int] == i,
{
    let n = gsa.len() as int;
    assert forall|r: int| 0 <= r < n implies #[trigger] isa[gsa[r] as int] == r by {
        lemma_isa_inverts(gsa, r, n);
    }
    assert forall|i: int| 0 <= i < n implies #[trigger] gsa[isa[i] as int] == i by {
        assert(gsa.contains(i as u32));
        let r = choose|r: int| 0 <= r < n && gsa[r] == i as u32;
        lemma_isa_inverts(gsa, r, n);
        assert(isa[gsa[r] as int] == r);
    }
}

/// Joining strings keeps each part: the joined prefix and the rest.
proof fn lemma_joined_concat(a: Seq<Seq<u8>>, b: Seq<Seq<u8>>)
    ensures
        joined(a + b) == joined(a) + joined(b),
    decreases b.len(),
{
    if b.len() == 0 {
        assert(a + b =~= a);
        assert(joined(a) + joined(b) =~= joined(a));
    } else {
        assert((a + b).drop_last() =~= a + b.drop_last());
        lemma_joined_concat(a, b.drop_last());
        assert(joined(a + b) =~= joined(a) + joined(b));
    }
}

/// The first nul from `from` is at `e` when the bytes in between are none.
proof fn lemma_first_nul_at(s: Seq<u8>, from: int, e: int)
    requires
        0 <= from <= e < s.len(),
        s[e] == 0,
        forall|k: int| from <= k < e ==> s[k] != 0,
    ensures
        first_nul(s, from) == Some(e),
    decreases e - from,
{
    if from < e {
        lemma_first_nul_at(s, from + 1, e);
    }
}

/// The offset where the `k`-th string starts in the joined text.
pub open spec fn string_offset(strs: Seq<Seq<u8>>, k: int) -> int {
    joined(strs.take(k)).len() as int
}

proof fn lemma_pieces_from(strs: Seq<Seq<u8>>, k: int)
    requires
        first_error(strs) is None,
        0 <= k <= strs.len(),
    ensures
        nul_pieces(joined(strs), string_offset(strs, k)) == Seq::new(
            (strs.len() - k) as nat,
            |j: int| (string_offset(strs, k + j), strs[k + j]),
        ),
    decreases strs.len() - k,
{
    let s = joined(strs);
    assert(strs.take(strs.len() as int) =~= strs);
    if k == strs.len() {
        assert(nul_pieces(s, s.len() as int) =~= Seq::<(int, Seq<u8>)>::empty());
    } else {
        lemma_no_error_each(strs, k);
        let pre = strs.take(k);
        let mid = strs[k];
        let post = strs.skip(k + 1);
        assert(strs =~= pre + seq![mid] + post);
        assert(strs.take(k + 1) =~= pre + seq![mid]);
        lemma_joined_concat(pre + seq![mid], post);
        lemma_joined_concat(pre, seq![mid]);
        assert(seq![mid].drop_last() =~= Seq::<Seq<u8>>::empty());
        assert(joined(Seq::<Seq<u8>>::empty()) =~= Seq::<u8>::empty());
        assert(seq![mid].last() == mid);
        assert(joined(seq![mid]) == joined(seq![mid].drop_last()) + seq![mid].last() + seq![0u8]);
        assert(joined(seq![mid]) =~= mid + seq![0u8]);
        let o = string_offset(strs, k);
        let e = o + mid.len();
        assert(s =~= joined(pre) + (mid + seq![0u8]) + joined(post));
        assert(string_offset(strs, k + 1) == e + 1);
        assert forall|q: int| o <= q < e implies s[q] != 0 by {
            assert(s[q] == mid[q - o]);
        }
        assert(s[e] == 0);
        lemma_first_nul_at(s, o, e);
        assert(s.subrange(o, e) =~= mid);
        lemma_pieces_from(strs, k + 1);
        assert(nul_pieces(s, o) =~= Seq::new(
            (strs.len() - k) as nat,
            |j: int| (string_offset(strs, k + j), strs[k + j]),
        ));
    }
}

proof fn lemma_no_error_each(strs: Seq<Seq<u8>>, k: int)
    requires
        first_error(strs) is None,
        0 <= k < strs.len(),
    ensures
        strs[k].len() > 0,
        !has_nul(strs[k]),
    decreases strs.len(),
{
    if k < strs.len() - 1 {
        assert(strs.drop_last()[k] == strs[k]);
        lemma_no_error_each(strs.drop_last(), k);
    }
}

/// Splitting the joined text at its nuls gives back each string, in order,
/// at the offset where it starts: the first at 0, each next one past the
/// previous string and its nul.
pub proof fn lemma_strings_round_trip(strs: Seq<Seq<u8>>)
    requires
        first_error(strs) is None,
    ensures
        nul_pieces(joined(strs), 0) == Seq::new(
            strs.len(),
            |k: int| (string_offset(strs, k), strs[k]),
        ),
        forall|k: int|
            0 <= k < strs.len() ==> #[trigger] string_offset(strs, k + 1) == string_offset(strs, k)
                + strs[k].len() + 1,
        string_offset(strs, 0) == 0,
{
    lemma_pieces_from(strs, 0);
    assert(strs.take(0) =~= Seq::<Seq<u8>>::empty());
    assert forall|k: int|
        0 <= k < strs.len() implies #[trigger] string_offset(strs, k + 1) == string_offset(strs, k)
        + strs[k].len() + 1 by {
        assert(strs.take(k + 1).drop_last() =~= strs.take(k));
    }
    assert(nul_pieces(joined(strs), 0) =~= Seq::new(
        strs.len(),
        |k: int| (string_offset(strs, k), strs[k]),
    ));
}

proof fn lemma_first_nul(s: Seq<u8>, from: int)
    ensures
        first_nul(s, from) matches Some(e) ==> from <= e < s.len() && s[e] == 0,
    decreases s.len() - from,
{
    if 0 <= from < s.len() && s[from] != 0 {
        lemma_first_nul(s, from + 1);
    }
}

proof fn lemma_first_error_prefix(strs: Seq<Seq<u8>>, n: int)
    requires
        0 < n <= strs.len(),
        first_error(strs.take(n)) is Some,
    ensures
        first_error(strs) == first_error(strs.take(n)),
    decreases strs.len() - n,
{
    if n < strs.len() {
        assert(strs.take(n + 1).drop_last() =~= strs.take(n));
        lemma_first_error_prefix(strs, n + 1);
    } else {
        assert(strs.take(n) =~= strs);
    }
}

} // verus!
