//! Decrypting a window of a file agrees with decrypting the whole file:
//! the window's bytes come out as the matching slice of the file with each
//! of its encrypted ranges decrypted block by block.

use vstd::prelude::*;

use crate::encryption::{
    aes128_decrypt_block, decrypt_blocks, decrypt_from, decrypt_span, lead_count, range_step,
    spec_decrypt, spec_end_offset, Range,
};

verus! {

/// The block of 16 bytes of `s` that holds position `j`, completed from
/// `tail` when `s` ends inside it.
pub open spec fn span_block(s: Seq<u8>, tail: Seq<u8>, j: int) -> Seq<u8> {
    let q = j / 16 * 16;
    if q + 16 <= s.len() {
        s.subrange(q, q + 16)
    } else {
        s.subrange(q, s.len() as int) + tail.subrange(0, 16 - (s.len() - q))
    }
}

proof fn lemma_block_of(j: int, m: int)
    requires
        m % 16 == 0,
        0 <= m <= j < m + 16,
    ensures
        j / 16 * 16 == m,
        j % 16 == j - m,
{
}

/// Whole blocks decrypt one by one.
proof fn lemma_decrypt_blocks(key: Seq<u8>, s: Seq<u8>)
    requires
        s.len() % 16 == 0,
    ensures
        decrypt_blocks(key, s).len() == s.len(),
        forall|j: int|
            0 <= j < s.len() ==> #[trigger] decrypt_blocks(key, s)[j] == aes128_decrypt_block(
                key,
                s.subrange(j / 16 * 16, j / 16 * 16 + 16),
            )@[j % 16],
    decreases s.len(),
{
    if s.len() >= 16 {
        let m = s.len() - 16;
        let init = s.subrange(0, m);
        lemma_decrypt_blocks(key, init);
        let last = aes128_decrypt_block(key, s.subrange(m, s.len() as int))@;
        assert(last.len() == 16);
        assert forall|j: int| 0 <= j < s.len() implies #[trigger] decrypt_blocks(key, s)[j]
            == aes128_decrypt_block(key, s.subrange(j / 16 * 16, j / 16 * 16 + 16))@[j % 16] by {
            if j < m {
                let q = j / 16 * 16;
                assert(q + 16 <= m);
                assert(init.subrange(q, q + 16) =~= s.subrange(q, q + 16));
            } else {
                lemma_block_of(j, m);
            }
        }
    } else {
        assert(s.len() == 0);
    }
}

/// A span decrypts block by block, its last partial block completed from
/// `tail`.
proof fn lemma_decrypt_span(key: Seq<u8>, s: Seq<u8>, tail: Seq<u8>)
    requires
        tail.len() >= 16,
    ensures
        decrypt_span(key, s, tail).len() == s.len(),
        forall|j: int|
            0 <= j < s.len() ==> #[trigger] decrypt_span(key, s, tail)[j] == aes128_decrypt_block(
                key,
                span_block(s, tail, j),
            )@[j % 16],
{
    let n = s.len() - s.len() % 16;
    let whole = s.subrange(0, n);
    lemma_decrypt_blocks(key, whole);
    let rest = s.subrange(n, s.len() as int);
    assert forall|j: int| 0 <= j < s.len() implies #[trigger] decrypt_span(key, s, tail)[j]
        == aes128_decrypt_block(key, span_block(s, tail, j))@[j % 16] by {
        if j < n {
            let q = j / 16 * 16;
            assert(q + 16 <= n);
            assert(whole.subrange(q, q + 16) =~= s.subrange(q, q + 16));
        } else {
            lemma_block_of(j, n);
            assert(rest.len() > 0);
        }
    }
}

/// Whether file position `x` lies in range `r`.
pub open spec fn in_range(r: Range, x: int) -> bool {
    r.start_offset <= x < spec_end_offset(r)
}

/// Where the block of range `r` that holds position `x` starts.
pub open spec fn block_start(r: Range, x: int) -> int {
    r.start_offset + (x - r.start_offset) / 16 * 16
}

/// The byte at position `x` of file `f` once its ranges `rs` are decrypted:
/// the byte of its decrypted block when `x` lies in a range, as stored
/// otherwise.
pub open spec fn plain_byte(key: Seq<u8>, rs: Seq<Range>, f: Seq<u8>, x: int) -> u8 {
    if exists|k: int| 0 <= k < rs.len() && in_range(rs[k], x) {
        let k = choose|k: int| 0 <= k < rs.len() && in_range(rs[k], x);
        let bs = block_start(rs[k], x);
        aes128_decrypt_block(key, f.subrange(bs, bs + 16))@[x - bs]
    } else {
        f[x]
    }
}

/// File `f` with its ranges `rs` decrypted.
pub open spec fn decrypt_file(key: Seq<u8>, rs: Seq<Range>, f: Seq<u8>) -> Seq<u8> {
    Seq::new(f.len(), |x: int| plain_byte(key, rs, f, x))
}

/// Each range ends before the next one starts.
pub open spec fn ranges_apart(rs: Seq<Range>) -> bool {
    forall|i: int, j: int|
        0 <= i < j < rs.len() ==> spec_end_offset(#[trigger] rs[i]) <= (#[trigger] rs[j]).start_offset
}

/// The window of `len` bytes at `o` of file `f`, with `tail` the bytes just
/// after it, where every range of `rs` lies in `f` and no range that holds
/// `o` has a block starting before `o` and ending after it.
pub open spec fn window_ok(rs: Seq<Range>, f: Seq<u8>, o: int, len: int, tail: Seq<u8>) -> bool {
    &&& 0 <= o
    &&& 0 <= len
    &&& o + len <= f.len()
    &&& tail.len() == 16
    &&& forall|j: int| 0 <= j < 16 && o + len + j < f.len() ==> #[trigger] tail[j] == f[o + len + j]
    &&& forall|k: int| 0 <= k < rs.len() ==> spec_end_offset(#[trigger] rs[k]) <= f.len()
    &&& forall|k: int|
        0 <= k < rs.len() && (#[trigger] rs[k]).start_offset < o < spec_end_offset(rs[k]) ==> (o
            - rs[k].start_offset) % 16 == 0
}

proof fn lemma_aligned_shift(a: int, j: int)
    requires
        a % 16 == 0,
        a >= 0,
        j >= 0,
    ensures
        (a + j) / 16 * 16 == a + j / 16 * 16,
        (a + j) % 16 == j % 16,
{
}

/// One range step on a window: the positions of the window in range `r`
/// become the bytes of their decrypted blocks of `f`; the others stay.
#[verifier::spinoff_prover]
#[verifier::rlimit(60)]
proof fn lemma_range_step(
    key: Seq<u8>,
    r: Range,
    b: Seq<u8>,
    head: Seq<u8>,
    tail: Seq<u8>,
    f: Seq<u8>,
    o: int,
)
    requires
        window_ok(seq![r], f, o, b.len() as int, tail),
        r.start_offset < o + b.len(),
        spec_end_offset(r) > o,
        forall|x: int| 0 <= x < b.len() && in_range(r, o + x) ==> #[trigger] b[x] == f[o + x],
    ensures
        range_step(key, r, b, head, tail, o).len() == b.len(),
        forall|x: int|
            0 <= x < b.len() ==> #[trigger] range_step(key, r, b, head, tail, o)[x] == if in_range(
                r,
                o + x,
            ) {
                aes128_decrypt_block(
                    key,
                    f.subrange(block_start(r, o + x), block_start(r, o + x) + 16),
                )@[o + x - block_start(r, o + x)]
            } else {
                b[x]
            },
{
    let len = b.len() as int;
    let s0 = r.start_offset as int;
    let e = spec_end_offset(r);
    assert(seq![r][0] == r);
    assert(e <= f.len());
    assert(s0 < o < e ==> (o - s0) % 16 == 0);
    let a = if s0 < o {
        o
    } else {
        s0
    };
    assert((a - s0) % 16 == 0);
    if s0 < o {
        lemma_aligned_shift(0, o - s0);
        assert((o - s0) / 16 * 16 == o - s0);
    }
    let start = a - o;
    let end = if len < e - o {
        len
    } else {
        e - o
    };
    assert(e - s0 == r.block_count * 16);
    let res = range_step(key, r, b, head, tail, o);
    if start >= end {
        assert(res == b);
        assert forall|x: int| 0 <= x < len implies !#[trigger] in_range(r, o + x) by {}
    } else {
        let seg = b.subrange(start, end);
        lemma_decrypt_span(key, seg, tail);
        let ds = decrypt_span(key, seg, tail);
        assert(res == b.subrange(0, start) + ds + b.subrange(end, len));
        assert forall|x: int| 0 <= x < len implies #[trigger] res[x] == if in_range(r, o + x) {
            aes128_decrypt_block(
                key,
                f.subrange(block_start(r, o + x), block_start(r, o + x) + 16),
            )@[o + x - block_start(r, o + x)]
        } else {
            b[x]
        } by {
            if start <= x < end {
                let j = x - start;
                assert(res[x] == ds[j]);
                let q = j / 16 * 16;
                lemma_aligned_shift(a - s0, j);
                let bs = block_start(r, o + x);
                assert(bs == a + q);
                assert(o + x - bs == j % 16);
                assert(in_range(r, o + x));
                // The positions from a + q on, in the range, hold the file's bytes.
                assert(e - a >= 0);
                assert((e - (a + q)) % 16 == 0) by {
                    lemma_aligned_shift(a - s0, j);
                }
                assert(a + q + 16 <= e);
                if q + 16 <= seg.len() {
                    assert(span_block(seg, tail, j) =~= f.subrange(bs, bs + 16)) by {
                        assert forall|i: int| 0 <= i < 16 implies #[trigger] span_block(seg, tail, j)[i]
                            == f.subrange(bs, bs + 16)[i] by {
                            assert(seg[q + i] == b[start + q + i]);
                            assert(in_range(r, o + start + q + i));
                        }
                    }
                } else {
                    assert(end == len);
                    assert(span_block(seg, tail, j) =~= f.subrange(bs, bs + 16)) by {
                        assert forall|i: int| 0 <= i < 16 implies #[trigger] span_block(seg, tail, j)[i]
                            == f.subrange(bs, bs + 16)[i] by {
                            if q + i < seg.len() {
                                assert(seg[q + i] == b[start + q + i]);
                                assert(in_range(r, o + start + q + i));
                            } else {
                                let t = q + i - seg.len();
                                assert(0 <= t < 16);
                                assert(o + len + t == bs + i);
                            }
                        }
                    }
                }
            } else if x < start {
                assert(res[x] == b[x]);
            } else {
                assert(res[x] == b[x]);
            }
        }
    }
}

proof fn lemma_lead(rs: Seq<Range>, o: int)
    requires
        ranges_apart(rs),
    ensures
        0 <= lead_count(rs, o) <= rs.len(),
        forall|k: int| 0 <= k < lead_count(rs, o) ==> spec_end_offset(#[trigger] rs[k]) <= o,
        forall|k: int| lead_count(rs, o) <= k < rs.len() ==> spec_end_offset(#[trigger] rs[k]) > o,
    decreases rs.len(),
{
    if rs.len() > 0 {
        if spec_end_offset(rs[0]) > o {
            assert forall|k: int| 0 <= k < rs.len() implies spec_end_offset(#[trigger] rs[k]) > o by {
                if k > 0 {
                    assert(spec_end_offset(rs[0]) <= rs[k].start_offset);
                }
            }
        } else {
            let t = rs.drop_first();
            assert forall|i: int, j: int| 0 <= i < j < t.len() implies spec_end_offset(#[trigger] t[i])
                <= (#[trigger] t[j]).start_offset by {
                assert(t[i] == rs[i + 1] && t[j] == rs[j + 1]);
            }
            lemma_lead(t, o);
            assert forall|k: int| 0 <= k < lead_count(rs, o) implies spec_end_offset(#[trigger] rs[k]) <= o by {
                if k > 0 {
                    assert(rs[k] == t[k - 1]);
                }
            }
            assert forall|k: int| lead_count(rs, o) <= k < rs.len() implies spec_end_offset(#[trigger] rs[k]) > o by {
                assert(rs[k] == t[k - 1]);
            }
        }
    }
}

/// With ranges apart, a position of range `i` decrypts with that range's block.
proof fn lemma_plain_byte_in(key: Seq<u8>, rs: Seq<Range>, f: Seq<u8>, i: int, x: int)
    requires
        ranges_apart(rs),
        0 <= i < rs.len(),
        in_range(rs[i], x),
    ensures
        plain_byte(key, rs, f, x) == aes128_decrypt_block(
            key,
            f.subrange(block_start(rs[i], x), block_start(rs[i], x) + 16),
        )@[x - block_start(rs[i], x)],
{
    let k = choose|k: int| 0 <= k < rs.len() && in_range(rs[k], x);
    if k < i {
        assert(spec_end_offset(rs[k]) <= rs[i].start_offset);
    } else if k > i {
        assert(spec_end_offset(rs[i]) <= rs[k].start_offset);
    }
}

proof fn lemma_decrypt_from(
    key: Seq<u8>,
    rs: Seq<Range>,
    i: int,
    b: Seq<u8>,
    head: Seq<u8>,
    tail: Seq<u8>,
    f: Seq<u8>,
    o: int,
)
    requires
        ranges_apart(rs),
        window_ok(rs, f, o, b.len() as int, tail),
        0 <= i <= rs.len(),
        forall|k: int| i <= k < rs.len() ==> spec_end_offset(#[trigger] rs[k]) > o,
        forall|x: int|
            0 <= x < b.len() ==> #[trigger] b[x] == if exists|k: int|
                0 <= k < i && in_range(rs[k], o + x) {
                plain_byte(key, rs, f, o + x)
            } else {
                f[o + x]
            },
    ensures
        decrypt_from(key, rs, i, b, head, tail, o) == decrypt_file(key, rs, f).subrange(
            o,
            o + b.len(),
        ),
    decreases rs.len() - i,
{
    let len = b.len() as int;
    let d = decrypt_file(key, rs, f);
    if i >= rs.len() || rs[i].start_offset >= o + len {
        assert forall|x: int| 0 <= x < len implies #[trigger] b[x] == d.subrange(o, o + len)[x] by {
            if !(exists|k: int| 0 <= k < i && in_range(rs[k], o + x)) {
                assert(!(exists|k: int| 0 <= k < rs.len() && in_range(rs[k], o + x))) by {
                    if exists|k: int| 0 <= k < rs.len() && in_range(rs[k], o + x) {
                        let k = choose|k: int| 0 <= k < rs.len() && in_range(rs[k], o + x);
                        assert(k >= i);
                        if k > i {
                            assert(spec_end_offset(rs[i]) <= rs[k].start_offset);
                        }
                    }
                }
            }
        }
        assert(b =~= d.subrange(o, o + len));
    } else {
        let r = rs[i];
        assert(window_ok(seq![r], f, o, len, tail)) by {
            assert(seq![r][0] == r);
            assert(spec_end_offset(rs[i]) <= f.len());
        }
        assert forall|x: int| 0 <= x < len && in_range(r, o + x) implies #[trigger] b[x] == f[o + x] by {
            if exists|k: int| 0 <= k < i && in_range(rs[k], o + x) {
                let k = choose|k: int| 0 <= k < i && in_range(rs[k], o + x);
                assert(spec_end_offset(rs[k]) <= rs[i].start_offset);
            }
        }
        lemma_range_step(key, r, b, head, tail, f, o);
        let b2 = range_step(key, r, b, head, tail, o);
        assert forall|x: int| 0 <= x < b2.len() implies #[trigger] b2[x] == if exists|k: int|
            0 <= k < i + 1 && in_range(rs[k], o + x) {
            plain_byte(key, rs, f, o + x)
        } else {
            f[o + x]
        } by {
            if in_range(r, o + x) {
                lemma_plain_byte_in(key, rs, f, i, o + x);
            } else {
                if exists|k: int| 0 <= k < i + 1 && in_range(rs[k], o + x) {
                    let k = choose|k: int| 0 <= k < i + 1 && in_range(rs[k], o + x);
                    assert(k < i);
                }
            }
        }
        lemma_decrypt_from(key, rs, i + 1, b2, head, tail, f, o);
    }
}

/// Decrypting a window of a file gives the slice of the whole file with its
/// ranges decrypted, when the ranges lie apart within the file, `tail` holds
/// the file's bytes after the window, and no range holding the window's
/// start has a block beginning before it.
pub proof fn lemma_window_decrypts_as_file(
    key: Seq<u8>,
    rs: Seq<Range>,
    f: Seq<u8>,
    o: int,
    len: int,
    head: Seq<u8>,
    tail: Seq<u8>,
)
    requires
        ranges_apart(rs),
        window_ok(rs, f, o, len, tail),
    ensures
        spec_decrypt(key, rs, f.subrange(o, o + len), head, tail, o) == decrypt_file(
            key,
            rs,
            f,
        ).subrange(o, o + len),
{
    let b = f.subrange(o, o + len);
    lemma_lead(rs, o);
    let p = lead_count(rs, o);
    assert forall|x: int| 0 <= x < b.len() implies #[trigger] b[x] == if exists|k: int|
        0 <= k < p && in_range(rs[k], o + x) {
        plain_byte(key, rs, f, o + x)
    } else {
        f[o + x]
    } by {
        if exists|k: int| 0 <= k < p && in_range(rs[k], o + x) {
            let k = choose|k: int| 0 <= k < p && in_range(rs[k], o + x);
            assert(spec_end_offset(rs[k]) <= o);
        }
    }
    lemma_decrypt_from(key, rs, p, b, head, tail, f, o);
}

} // verus!
