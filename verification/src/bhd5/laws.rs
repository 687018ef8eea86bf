//! What the index fields hold, stated over the bytes: each multi-byte field
//! is the integer its bytes spell in the index's byte order.

use vstd::prelude::*;

use crate::bhd5::byte_order::{spec_u32, spec_u64, ByteOrder};
use crate::bhd5::format::{header_valid, spec_encryption, spec_entry, spec_header, EntryLayout};
use crate::rsa::be_value;
use crate::unaligned::le_value;

verus! {

/// The integer that the bytes `s` spell in byte order `o`.
pub open spec fn bytes_value(s: Seq<u8>, o: ByteOrder) -> int {
    match o {
        ByteOrder::Little => le_value(s),
        ByteOrder::Big => be_value(s) as int,
    }
}

proof fn lemma_u32_value(b: Seq<u8>, p: int, o: ByteOrder)
    requires
        0 <= p,
        p + 4 <= b.len(),
    ensures
        spec_u32(b, p, o) == bytes_value(b.subrange(p, p + 4), o),
{
    let s = b.subrange(p, p + 4);
    match o {
        ByteOrder::Little => {
            reveal_with_fuel(le_value, 5);
            assert(s.drop_first().drop_first().drop_first().drop_first().len() == 0);
        },
        ByteOrder::Big => {
            reveal_with_fuel(be_value, 5);
            assert(s.drop_last().drop_last().drop_last().drop_last().len() == 0);
        },
    }
}

proof fn lemma_u64_value(b: Seq<u8>, p: int, o: ByteOrder)
    requires
        0 <= p,
        p + 8 <= b.len(),
    ensures
        spec_u64(b, p, o) == bytes_value(b.subrange(p, p + 8), o),
{
    lemma_u32_value(b, p, o);
    lemma_u32_value(b, p + 4, o);
    let s = b.subrange(p, p + 8);
    match o {
        ByteOrder::Little => {
            reveal_with_fuel(le_value, 9);
            let t = s.drop_first().drop_first().drop_first().drop_first();
            assert(t =~= b.subrange(p + 4, p + 8));
        },
        ByteOrder::Big => {
            reveal_with_fuel(be_value, 9);
            let t = s.drop_last().drop_last().drop_last().drop_last();
            assert(t =~= b.subrange(p, p + 4));
        },
    }
}

/// The two's complement value of a 32-bit word.
pub open spec fn signed32(v: int) -> int {
    if v < 0x8000_0000 {
        v
    } else {
        v - 0x1_0000_0000
    }
}

/// The 4 bytes at `p`, read as a two's complement integer.
pub open spec fn i32_at(b: Seq<u8>, p: int, o: ByteOrder) -> int {
    signed32(bytes_value(b.subrange(p, p + 4), o))
}

/// The 8 bytes at `p`, read as an unsigned integer.
pub open spec fn u64_at(b: Seq<u8>, p: int, o: ByteOrder) -> int {
    bytes_value(b.subrange(p, p + 8), o)
}

/// The 4 bytes at `p`, read as an unsigned integer.
pub open spec fn u32_at(b: Seq<u8>, p: int, o: ByteOrder) -> int {
    bytes_value(b.subrange(p, p + 4), o)
}

/// Each field of a parsed file entry is the integer its bytes spell in the
/// index's byte order, at its place in the entry's layout. In particular the
/// path hash of an Elden Ring entry is the whole 64-bit word at the entry's
/// start (and can exceed `u32::MAX`), while the older layouts store a 32-bit
/// hash there.
pub proof fn lemma_entry_fields(b: Seq<u8>, off: int, l: EntryLayout, o: ByteOrder)
    requires
        0 <= off,
        off + 40 <= b.len(),
    ensures
        ({
            let e = spec_entry(b, off, l, o);
            &&& e.layout == l
            &&& match l {
                EntryLayout::EldenRing => {
                    &&& e.path_hash == u64_at(b, off, o)
                    &&& e.file_size == i32_at(b, off + 8, o)
                    &&& e.unpadded_file_size == i32_at(b, off + 12, o)
                    &&& e.file_offset == u64_at(b, off + 16, o)
                    &&& e.file_hash_offset == u64_at(b, off + 24, o)
                    &&& e.encryption_offset == u64_at(b, off + 32, o)
                },
                EntryLayout::DarkSouls => {
                    &&& e.path_hash == u32_at(b, off, o)
                    &&& e.file_size == i32_at(b, off + 4, o)
                    &&& e.file_offset == u64_at(b, off + 8, o)
                    &&& e.file_hash_offset == 0 && e.encryption_offset == 0
                    &&& e.unpadded_file_size == 0
                },
                EntryLayout::DarkSouls2 => {
                    &&& e.path_hash == u32_at(b, off, o)
                    &&& e.file_size == i32_at(b, off + 4, o)
                    &&& e.file_offset == u64_at(b, off + 8, o)
                    &&& e.file_hash_offset == u64_at(b, off + 16, o)
                    &&& e.encryption_offset == u64_at(b, off + 24, o)
                    &&& e.unpadded_file_size == 0
                },
                EntryLayout::DarkSouls3 => {
                    &&& e.path_hash == u32_at(b, off, o)
                    &&& e.file_size == i32_at(b, off + 4, o)
                    &&& e.file_offset == u64_at(b, off + 8, o)
                    &&& e.file_hash_offset == u64_at(b, off + 16, o)
                    &&& e.encryption_offset == u64_at(b, off + 24, o)
                    &&& e.unpadded_file_size == i32_at(b, off + 32, o)
                },
            }
        }),
{
    lemma_u32_value(b, off, o);
    lemma_u32_value(b, off + 4, o);
    lemma_u32_value(b, off + 8, o);
    lemma_u32_value(b, off + 12, o);
    lemma_u32_value(b, off + 32, o);
    lemma_u64_value(b, off, o);
    lemma_u64_value(b, off + 8, o);
    lemma_u64_value(b, off + 16, o);
    lemma_u64_value(b, off + 24, o);
    lemma_u64_value(b, off + 32, o);
}

/// Each range of a parsed encryption record at `off` is read from its own
/// 16 bytes: the start offset is the 64-bit word at `off + 20 + 16k`, the
/// end offset the one after it, at `off + 28 + 16k`; the key is the 16 bytes
/// at `off` and the count the 32-bit word after them.
pub proof fn lemma_encryption_fields(b: Seq<u8>, off: int, o: ByteOrder)
    requires
        0 <= off,
        off + 20 <= b.len(),
        0 <= i32_at(b, off + 16, o),
        off + 20 + i32_at(b, off + 16, o) * 16 <= b.len(),
    ensures
        ({
            let e = spec_encryption(b, off, o);
            &&& e.key == b.subrange(off, off + 16)
            &&& e.range_count == i32_at(b, off + 16, o)
            &&& e.ranges.len() == i32_at(b, off + 16, o)
            &&& forall|k: int|
                0 <= k < e.ranges.len() ==> (#[trigger] e.ranges[k]).start_offset == u64_at(
                    b,
                    off + 20 + 16 * k,
                    o,
                ) && e.ranges[k].end_offset == u64_at(b, off + 28 + 16 * k, o)
        }),
{
    lemma_u32_value(b, off + 16, o);
    let e = spec_encryption(b, off, o);
    let n = i32_at(b, off + 16, o);
    assert forall|k: int| 0 <= k < e.ranges.len() implies (#[trigger] e.ranges[k]).start_offset
        == u64_at(b, off + 20 + 16 * k, o) && e.ranges[k].end_offset == u64_at(
        b,
        off + 28 + 16 * k,
        o,
    ) by {
        assert(16 * k + 16 <= n * 16) by (nonlinear_arith)
            requires
                0 <= k < n,
        ;
        lemma_u64_value(b, off + 20 + 16 * k, o);
        lemma_u64_value(b, off + 28 + 16 * k, o);
        assert(off + 20 + k * 16 == off + 20 + 16 * k);
        assert(off + 28 + k * 16 == off + 28 + 16 * k);
    }
}

/// A header is the magic `BHD5`, the byte order mark, a crypto flag, two
/// zero bytes and the 32-bit one; its fields are the integers their bytes
/// spell in the header's byte order: the file size at 12, the bucket count
/// (signed) at 16, the bucket offset at 20 and the 64-bit word at 24.
pub proof fn lemma_header_fields(b: Seq<u8>, o: ByteOrder)
    requires
        b.len() >= 32,
    ensures
        header_valid(b, o) ==> b.subrange(0, 4) == seq![0x42u8, 0x48u8, 0x44u8, 0x35u8] && u32_at(
            b,
            8,
            o,
        ) == 1 && b[6] == 0 && b[7] == 0 && (b[5] == 0 || b[5] == 1),
        ({
            let h = spec_header(b, o);
            &&& h.order == o
            &&& h.has_crypto == (b[5] == 1)
            &&& h.file_size == u32_at(b, 12, o)
            &&& h.bucket_count == i32_at(b, 16, o)
            &&& h.bucket_offset == u32_at(b, 20, o)
            &&& h.bucket_offset2_or_salt_len == u64_at(b, 24, o)
        }),
{
    lemma_u32_value(b, 8, o);
    lemma_u32_value(b, 12, o);
    lemma_u32_value(b, 16, o);
    lemma_u32_value(b, 20, o);
    lemma_u64_value(b, 24, o);
    assert(header_valid(b, o) ==> b.subrange(0, 4) =~= seq![0x42u8, 0x48u8, 0x44u8, 0x35u8]);
}

} // verus!
