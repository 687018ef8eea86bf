//! Per-file AES encryption metadata: a compact byte store written while the
//! archive index is read, and the decryption of file data read at any offset.
//!
//! A store record is a tag byte `0` (AES-128, ECB, no padding), the 16-byte
//! key, the 24-bit little endian range count, then per range its 32-bit
//! little endian start offset and block count, sorted by end offset.

pub mod buffer;
pub mod window;

use aes::cipher::{BlockCipherDecrypt, KeyInit};
use vstd::prelude::*;

use crate::bhd5::format::{Encryption, EncryptionRange, EncryptionView, FileEntry};
use crate::unaligned::{le_bytes, le_value, lemma_le_bytes_len, lemma_le_value_of_bytes, U24, U32};

verus! {

pub const BLOCK_SIZE: usize = 16;

/// Why a file's encryption record was not stored.
#[derive(Clone, Copy, Debug, PartialEq, Eq, Structural)]
pub enum StoreError {
    /// More ranges than a 24-bit count holds, or the store outgrew its 32-bit index.
    TooManyRanges,
    /// A range ends before it starts or is not a whole number of blocks.
    BadRange(u64, u64),
    /// A range lies outside the file: start, end, file offset, file size.
    OobRange(u64, u64, u64, u32),
}

/// Why a file could not be decrypted.
#[derive(Clone, Copy, Debug, PartialEq, Eq, Structural)]
pub enum DecryptError {
    /// The id points at no well-formed record.
    Id(EncryptionId),
}

/// The position of a record in a store, kept as its bitwise complement so
/// that it is never zero.
#[derive(Clone, Copy, Debug, PartialEq, Eq, Structural)]
pub struct EncryptionId {
    id: u32,
}

impl EncryptionId {
    pub closed spec fn spec_index(self) -> int {
        0xffff_ffff - self.id
    }

    pub closed spec fn spec_raw(self) -> u32 {
        self.id
    }

    /// The id of the record at byte `index`; none for indices that do not fit.
    pub fn try_from_index(index: usize) -> (r: Option<EncryptionId>)
        ensures
            r is Some <==> index < 0xffff_ffff,
            r matches Some(id) ==> id.spec_index() == index && id.spec_raw() != 0,
    {
        if index >= 0xffff_ffff {
            None
        } else {
            Some(EncryptionId { id: (0xffff_ffff - index) as u32 })
        }
    }

    pub fn into_index(self) -> (r: usize)
        ensures
            r == self.spec_index(),
    {
        (0xffff_ffff - self.id) as usize
    }
}

/// A slot of the three-buffer window used while streaming file data.
#[derive(Clone, Copy, Debug, PartialEq, Eq, Structural)]
pub enum Pos {
    P0,
    P1,
    P2,
}

pub open spec fn pos_index(p: Pos) -> int {
    match p {
        Pos::P0 => 0,
        Pos::P1 => 1,
        Pos::P2 => 2,
    }
}

impl Pos {
    /// The following slot, cyclically.
    pub fn next(self) -> (r: Pos)
        ensures
            pos_index(r) == (pos_index(self) + 1) % 3,
    {
        match self {
            Pos::P0 => Pos::P1,
            Pos::P1 => Pos::P2,
            Pos::P2 => Pos::P0,
        }
    }

    /// The preceding slot, cyclically.
    pub fn prev(self) -> (r: Pos)
        ensures
            pos_index(r) == (pos_index(self) + 2) % 3,
    {
        match self {
            Pos::P0 => Pos::P2,
            Pos::P1 => Pos::P0,
            Pos::P2 => Pos::P1,
        }
    }

    pub fn index(self) -> (r: usize)
        ensures
            r == pos_index(self),
    {
        match self {
            Pos::P0 => 0,
            Pos::P1 => 1,
            Pos::P2 => 2,
        }
    }
}

/// Stepping back undoes stepping forward, and the reverse: the slot whose
/// index is that of `next` (or `prev`) of `p` steps back (or forward) to `p`.
pub proof fn lemma_pos_next_prev(p: Pos, q: Pos)
    ensures
        pos_index(q) == (pos_index(p) + 1) % 3 ==> (pos_index(q) + 2) % 3 == pos_index(p),
        pos_index(q) == (pos_index(p) + 2) % 3 ==> (pos_index(q) + 1) % 3 == pos_index(p),
        pos_index(p) == pos_index(q) ==> p == q,
{
}

/// An encrypted range of a file, in whole blocks.
#[derive(Clone, Copy, Debug, PartialEq, Eq, Structural)]
pub struct Range {
    pub start_offset: u32,
    pub block_count: u32,
}

pub open spec fn spec_end_offset(r: Range) -> int {
    r.start_offset + r.block_count * BLOCK_SIZE
}

impl Range {
    pub fn block_count(&self) -> (r: u32)
        ensures
            r == self.block_count,
    {
        self.block_count
    }

    pub fn start_offset(&self) -> (r: u32)
        ensures
            r == self.start_offset,
    {
        self.start_offset
    }

    pub fn end_offset(&self) -> (r: u64)
        ensures
            r == spec_end_offset(*self),
    {
        self.start_offset as u64 + self.block_count as u64 * BLOCK_SIZE as u64
    }
}

/// What storing does with one range of a file of `file_size` bytes at
/// `file_offset`: skip it (empty), refuse it, or keep it.
pub enum RangeCheck {
    Skip,
    Refuse(StoreError),
    Keep(Range),
}

pub open spec fn check_range(file_offset: u64, file_size: u64, r: EncryptionRange) -> RangeCheck {
    let start = r.start_offset as int;
    let end = r.end_offset as int;
    let len = if end >= start {
        end - start
    } else {
        end - start + 0x1_0000_0000_0000_0000
    };
    if len == 0 {
        RangeCheck::Skip
    } else if start > end || len % 16 != 0 {
        RangeCheck::Refuse(StoreError::BadRange(r.start_offset, r.end_offset))
    } else if start + len > file_size {
        RangeCheck::Refuse(
            StoreError::OobRange(r.start_offset, r.end_offset, file_offset, file_size as u32),
        )
    } else {
        RangeCheck::Keep(
            Range { start_offset: start as u32, block_count: ((len % 0x1_0000_0000) / 16) as u32 },
        )
    }
}

/// The kept ranges of `rs`, in order, or the first refusal.
pub open spec fn collect_ranges(file_offset: u64, file_size: u64, rs: Seq<EncryptionRange>) -> Result<
    Seq<Range>,
    StoreError,
>
    decreases rs.len(),
{
    if rs.len() == 0 {
        Ok(Seq::empty())
    } else {
        match collect_ranges(file_offset, file_size, rs.drop_last()) {
            Err(e) => Err(e),
            Ok(acc) => match check_range(file_offset, file_size, rs.last()) {
                RangeCheck::Skip => Ok(acc),
                RangeCheck::Refuse(e) => Err(e),
                RangeCheck::Keep(r) => Ok(acc.push(r)),
            },
        }
    }
}

/// The number of elements of `s` ordered at or before `x`.
pub open spec fn insert_pos(s: Seq<Range>, x: Range) -> int
    decreases s.len(),
{
    if s.len() == 0 {
        0
    } else if spec_end_offset(s.last()) <= spec_end_offset(x) {
        s.len() as int
    } else {
        insert_pos(s.drop_last(), x)
    }
}

/// `s` stably sorted by end offset: each element goes after every earlier
/// element whose end offset is not greater.
pub open spec fn sort_by_end(s: Seq<Range>) -> Seq<Range>
    decreases s.len(),
{
    if s.len() == 0 {
        s
    } else {
        let sorted = sort_by_end(s.drop_last());
        sorted.insert(insert_pos(sorted, s.last()), s.last())
    }
}

pub open spec fn sorted_by_end(s: Seq<Range>) -> bool {
    forall|i: int, j: int|
        0 <= i <= j < s.len() ==> spec_end_offset(#[trigger] s[i]) <= spec_end_offset(#[trigger] s[j])
}

pub open spec fn range_bytes(r: Range) -> Seq<u8> {
    le_bytes(r.start_offset as int, 4) + le_bytes(r.block_count as int, 4)
}

pub open spec fn ranges_bytes(rs: Seq<Range>) -> Seq<u8>
    decreases rs.len(),
{
    if rs.len() == 0 {
        Seq::empty()
    } else {
        ranges_bytes(rs.drop_last()) + range_bytes(rs.last())
    }
}

/// A whole store record: tag, key, 24-bit range count, ranges.
pub open spec fn record_bytes(key: Seq<u8>, rs: Seq<Range>) -> Seq<u8> {
    seq![0u8] + key + le_bytes(rs.len() as int, 3) + ranges_bytes(rs)
}

/// What storing the record of `entry` appends after `out_len` bytes: the id
/// of the record and its bytes, or why it was refused.
pub open spec fn spec_store(entry: FileEntry, enc: EncryptionView, out_len: int) -> Result<
    (int, Seq<u8>),
    StoreError,
> {
    let file_size = if entry.file_size < 0 {
        0u64
    } else {
        entry.file_size as u64
    };
    match collect_ranges(entry.file_offset, file_size, enc.ranges) {
        Err(e) => Err(e),
        Ok(rs) => if rs.len() > 0xff_ffff || out_len >= 0xffff_ffff {
            Err(StoreError::TooManyRanges)
        } else {
            Ok((out_len, record_bytes(enc.key, sort_by_end(rs))))
        },
    }
}


/// Appends `bytes` to `out`.
fn push_bytes(out: &mut Vec<u8>, bytes: &[u8])
    ensures
        final(out)@ == old(out)@ + bytes@,
{
    let mut i: usize = 0;
    while i < bytes.len()
        invariant
            0 <= i <= bytes@.len(),
            out@ == old(out)@ + bytes@.subrange(0, i as int),
        decreases bytes@.len() - i,
    {
        out.push(bytes[i]);
        i = i + 1;
        assert(out@ =~= old(out)@ + bytes@.subrange(0, i as int));
    }
    assert(bytes@.subrange(0, bytes@.len() as int) =~= bytes@);
}

/// Checks one range of a file of `file_size` bytes at `file_offset`.
fn check_one(file_offset: u64, file_size: u64, range: EncryptionRange) -> (r: RangeCheck)
    requires
        file_size <= u32::MAX,
    ensures
        r == check_range(file_offset, file_size, range),
        r matches RangeCheck::Keep(k) ==> spec_end_offset(k) <= u32::MAX,
{
    let (start, end) = (range.start_offset, range.end_offset);
    let len = end.wrapping_sub(start);
    if len == 0 {
        return RangeCheck::Skip;
    }
    if start > end || len % 16 != 0 {
        return RangeCheck::Refuse(StoreError::BadRange(start, end));
    }
    // Here `start + len` is `end`: the range must end within the file.
    if end > file_size {
        return RangeCheck::Refuse(StoreError::OobRange(start, end, file_offset, file_size as u32));
    }
    let block_count = ((len % 0x1_0000_0000) as u32) / 16;
    let kept = Range { start_offset: start as u32, block_count };
    proof {
        assert(block_count * 16 <= len % 0x1_0000_0000);
        if file_size >= len {
            assert(len % 0x1_0000_0000 == len);
        }
    }
    RangeCheck::Keep(kept)
}

/// The ranges of `rs` in stable order of end offset.
fn sort_ranges(rs: &Vec<Range>) -> (r: Vec<Range>)
    ensures
        r@ == sort_by_end(rs@),
{
    let mut sorted: Vec<Range> = Vec::new();
    let mut k: usize = 0;
    while k < rs.len()
        invariant
            0 <= k <= rs@.len(),
            sorted@ == sort_by_end(rs@.take(k as int)),
        decreases rs@.len() - k,
    {
        let x = rs[k];
        let xe = x.end_offset();
        let mut j = sorted.len();
        assert(sorted@.take(j as int) =~= sorted@);
        while j > 0 && sorted[j - 1].end_offset() > xe
            invariant
                0 <= j <= sorted@.len(),
                xe == spec_end_offset(x),
                insert_pos(sorted@, x) == insert_pos(sorted@.take(j as int), x),
            decreases j,
        {
            assert(sorted@.take(j as int).drop_last() =~= sorted@.take(j - 1));
            j = j - 1;
        }
        proof {
            if j > 0 {
                assert(sorted@.take(j as int).last() == sorted@[j - 1]);
            }
            assert(rs@.take(k + 1).drop_last() =~= rs@.take(k as int));
            assert(rs@.take(k + 1).last() == x);
        }
        sorted.insert(j, x);
        k = k + 1;
    }
    assert(rs@.take(rs@.len() as int) =~= rs@);
    sorted
}

/// Stores the encryption record of `entry` at the end of `out`; on success
/// the id names where the record starts, on failure `out` is unchanged.
pub fn store_encryption(entry: &FileEntry, encryption: &Encryption, out: &mut Vec<u8>) -> (r: Result<
    EncryptionId,
    StoreError,
>)
    requires
        encryption.key@.len() == BLOCK_SIZE,
    ensures
        match spec_store(*entry, encryption@, old(out)@.len() as int) {
            Ok((index, bytes)) => r matches Ok(id) && id.spec_index() == index && final(out)@
                == old(out)@ + bytes,
            Err(e) => r == Err::<EncryptionId, StoreError>(e) && final(out)@ == old(out)@,
        },
{
    let file_offset = entry.file_offset();
    let file_size = entry.file_size() as u64;
    let mut ranges: Vec<Range> = Vec::new();
    let mut i: usize = 0;
    while i < encryption.ranges.len()
        invariant
            0 <= i <= encryption.ranges@.len(),
            file_size <= u32::MAX,
            file_size == (if entry.file_size < 0 { 0 } else { entry.file_size as int }),
            file_offset == entry.file_offset,
            collect_ranges(file_offset, file_size, encryption.ranges@.take(i as int)) == Ok::<
                Seq<Range>,
                StoreError,
            >(ranges@),
        decreases encryption.ranges@.len() - i,
    {
        let check = check_one(file_offset, file_size, encryption.ranges[i]);
        proof {
            assert(encryption.ranges@.take(i + 1).drop_last() =~= encryption.ranges@.take(
                i as int,
            ));
        }
        match check {
            RangeCheck::Skip => {},
            RangeCheck::Refuse(e) => {
                proof {
                    lemma_collect_err_prefix(
                        file_offset,
                        file_size,
                        encryption.ranges@,
                        i + 1,
                        e,
                    );
                }
                return Err(e);
            },
            RangeCheck::Keep(k) => {
                ranges.push(k);
            },
        }
        i = i + 1;
    }
    assert(encryption.ranges@.take(encryption.ranges@.len() as int) =~= encryption.ranges@);
    let sorted = sort_ranges(&ranges);
    proof {
        lemma_sort_len(ranges@);
    }
    if sorted.len() > 0xff_ffff {
        return Err(StoreError::TooManyRanges);
    }
    let id = match EncryptionId::try_from_index(out.len()) {
        Some(id) => id,
        None => {
            return Err(StoreError::TooManyRanges);
        },
    };
    let count = U24::new(sorted.len() as u32);
    out.push(0u8);
    push_bytes(out, encryption.key.as_slice());
    push_bytes(out, count.0.as_slice());
    let ghost head = out@;
    let mut k: usize = 0;
    while k < sorted.len()
        invariant
            0 <= k <= sorted@.len(),
            out@ == head + ranges_bytes(sorted@.take(k as int)),
        decreases sorted@.len() - k,
    {
        let r = sorted[k];
        push_bytes(out, U32::new(r.start_offset).0.as_slice());
        push_bytes(out, U32::new(r.block_count).0.as_slice());
        proof {
            assert(sorted@.take(k + 1).drop_last() =~= sorted@.take(k as int));
            assert(sorted@.take(k + 1).last() == r);
        }
        k = k + 1;
    }
    proof {
        assert(sorted@.take(sorted@.len() as int) =~= sorted@);
        assert(out@ =~= old(out)@ + record_bytes(encryption.key@, sorted@));
    }
    Ok(id)
}

/// A refusal among the first `n` ranges refuses the whole list.
proof fn lemma_collect_err_prefix(
    file_offset: u64,
    file_size: u64,
    rs: Seq<EncryptionRange>,
    n: int,
    e: StoreError,
)
    requires
        0 < n <= rs.len(),
        collect_ranges(file_offset, file_size, rs.take(n)) == Err::<Seq<Range>, StoreError>(e),
    ensures
        collect_ranges(file_offset, file_size, rs) == Err::<Seq<Range>, StoreError>(e),
    decreases rs.len() - n,
{
    if n < rs.len() {
        assert(rs.take(n + 1).drop_last() =~= rs.take(n));
        lemma_collect_err_prefix(file_offset, file_size, rs, n + 1, e);
    } else {
        assert(rs.take(n) =~= rs);
    }
}

/// Sorting keeps the number of ranges, and each range is inserted at a
/// place inside the ranges sorted before it.
pub proof fn lemma_sort_len(s: Seq<Range>)
    ensures
        sort_by_end(s).len() == s.len(),
        0 <= insert_pos(sort_by_end(s.drop_last()), s.last()) <= sort_by_end(s.drop_last()).len()
            || s.len() == 0,
    decreases s.len(),
{
    if s.len() > 0 {
        lemma_sort_len(s.drop_last());
        lemma_insert_pos_range(sort_by_end(s.drop_last()), s.last());
    }
}

/// The place where a range is inserted lies inside the sequence.
pub proof fn lemma_insert_pos_range(s: Seq<Range>, x: Range)
    ensures
        0 <= insert_pos(s, x) <= s.len(),
    decreases s.len(),
{
    if s.len() > 0 {
        lemma_insert_pos_range(s.drop_last(), x);
    }
}

/// The record at `index` of `store`: its key and ranges, if the bytes there
/// hold a whole record.
pub open spec fn parse_record(store: Seq<u8>, index: int) -> Option<(Seq<u8>, Seq<Range>)> {
    if index < 0 || index + 20 > store.len() || store[index] != 0 {
        None
    } else {
        let count = le_value(store.subrange(index + 17, index + 20));
        let base = index + 20;
        if base + 8 * count > store.len() {
            None
        } else {
            Some(
                (
                    store.subrange(index + 1, index + 17),
                    Seq::new(
                        count as nat,
                        |k: int|
                            Range {
                                start_offset: le_value(
                                    store.subrange(base + 8 * k, base + 8 * k + 4),
                                ) as u32,
                                block_count: le_value(
                                    store.subrange(base + 8 * k + 4, base + 8 * k + 8),
                                ) as u32,
                            },
                    ),
                ),
            )
        }
    }
}

/// The bytes of ranges are eight per range: the start offset and then the
/// block count, each as four little-endian bytes.
pub proof fn lemma_ranges_bytes(rs: Seq<Range>)
    ensures
        ranges_bytes(rs).len() == 8 * rs.len(),
        forall|k: int|
            0 <= k < rs.len() ==> ranges_bytes(rs).subrange(8 * k, 8 * k + 4) == le_bytes(
                #[trigger] rs[k].start_offset as int,
                4,
            ) && ranges_bytes(rs).subrange(8 * k + 4, 8 * k + 8) == le_bytes(
                rs[k].block_count as int,
                4,
            ),
    decreases rs.len(),
{
    if rs.len() > 0 {
        let init = rs.drop_last();
        lemma_ranges_bytes(init);
        lemma_le_bytes_len(rs.last().start_offset as int, 4);
        lemma_le_bytes_len(rs.last().block_count as int, 4);
        let b = ranges_bytes(rs);
        let n = 8 * init.len();
        assert forall|k: int| 0 <= k < rs.len() implies b.subrange(8 * k, 8 * k + 4) == le_bytes(
            #[trigger] rs[k].start_offset as int,
            4,
        ) && b.subrange(8 * k + 4, 8 * k + 8) == le_bytes(rs[k].block_count as int, 4) by {
            if k < init.len() {
                assert(b.subrange(8 * k, 8 * k + 4) =~= ranges_bytes(init).subrange(8 * k, 8 * k + 4));
                assert(b.subrange(8 * k + 4, 8 * k + 8) =~= ranges_bytes(init).subrange(
                    8 * k + 4,
                    8 * k + 8,
                ));
                assert(init[k] == rs[k]);
            } else {
                assert(b.subrange(8 * k, 8 * k + 4) =~= le_bytes(rs.last().start_offset as int, 4));
                assert(b.subrange(8 * k + 4, 8 * k + 8) =~= le_bytes(
                    rs.last().block_count as int,
                    4,
                ));
            }
        }
    }
}

/// What a store gives back for a record is what was stored, whatever was
/// stored before it and whatever is appended after it.
pub proof fn lemma_parse_stored_record(
    before: Seq<u8>,
    key: Seq<u8>,
    rs: Seq<Range>,
    after: Seq<u8>,
)
    requires
        key.len() == BLOCK_SIZE,
        rs.len() <= 0xff_ffff,
    ensures
        parse_record(before + record_bytes(key, rs) + after, before.len() as int) == Some((key, rs)),
{
    let s = before + record_bytes(key, rs) + after;
    let i = before.len() as int;
    lemma_le_bytes_len(rs.len() as int, 3);
    lemma_ranges_bytes(rs);
    let rb = ranges_bytes(rs);
    assert(s[i] == 0);
    assert(s.subrange(i + 1, i + 17) =~= key);
    assert(s.subrange(i + 17, i + 20) =~= le_bytes(rs.len() as int, 3));
    reveal_with_fuel(crate::unaligned::pow256, 5);
    lemma_le_value_of_bytes(rs.len() as int, 3);
    let count = le_value(s.subrange(i + 17, i + 20));
    assert(count == rs.len());
    let base = i + 20;
    let parsed = parse_record(s, i).unwrap().1;
    assert forall|k: int| 0 <= k < rs.len() implies #[trigger] parsed[k] == rs[k] by {
        assert(s.subrange(base + 8 * k, base + 8 * k + 4) =~= rb.subrange(8 * k, 8 * k + 4));
        assert(s.subrange(base + 8 * k + 4, base + 8 * k + 8) =~= rb.subrange(8 * k + 4, 8 * k + 8));
        lemma_le_value_of_bytes(rs[k].start_offset as int, 4);
        lemma_le_value_of_bytes(rs[k].block_count as int, 4);
    }
    assert(parsed =~= rs);
}

/// Reads the record at `index` of `store`.
pub fn read_record(store: &[u8], index: usize) -> (r: Option<([u8; 16], Vec<Range>)>)
    ensures
        match parse_record(store@, index as int) {
            None => r is None,
            Some((key, rs)) => r matches Some((k, v)) && k@ == key && v@ == rs,
        },
{
    let len = store.len();
    if index > len || len - index < 20 || store[index] != 0 {
        return None;
    }
    let count = U24([store[index + 17], store[index + 18], store[index + 19]]).get() as usize;
    proof {
        assert(seq![store@[index + 17], store@[index + 18], store@[index + 19]] =~= store@.subrange(
            index + 17,
            index + 20,
        ));
    }
    let base = index + 20;
    if count > (len - base) / 8 {
        return None;
    }
    let mut key = [0u8; 16];
    let mut k: usize = 0;
    while k < 16
        invariant
            0 <= k <= 16,
            len == store@.len(),
            index + 20 <= store@.len(),
            forall|m: int| 0 <= m < k ==> key@[m] == store@[index + 1 + m],
        decreases 16 - k,
    {
        key[k] = store[index + 1 + k];
        k = k + 1;
    }
    let mut ranges: Vec<Range> = Vec::new();
    let mut n: usize = 0;
    while n < count
        invariant
            0 <= n <= count,
            len == store@.len(),
            base == index + 20,
            base + 8 * count <= store@.len(),
            ranges@.len() == n,
            forall|m: int|
                0 <= m < n ==> #[trigger] ranges@[m] == (Range {
                    start_offset: le_value(store@.subrange(base + 8 * m, base + 8 * m + 4)) as u32,
                    block_count: le_value(store@.subrange(base + 8 * m + 4, base + 8 * m + 8))
                        as u32,
                }),
        decreases count - n,
    {
        let p = base + 8 * n;
        let start = U32([store[p], store[p + 1], store[p + 2], store[p + 3]]).get();
        let blocks = U32([store[p + 4], store[p + 5], store[p + 6], store[p + 7]]).get();
        proof {
            assert(seq![store@[p as int], store@[p + 1], store@[p + 2], store@[p + 3]]
                =~= store@.subrange(p as int, p + 4));
            assert(seq![store@[p + 4], store@[p + 5], store@[p + 6], store@[p + 7]]
                =~= store@.subrange(p + 4, p + 8));
        }
        ranges.push(Range { start_offset: start, block_count: blocks });
        n = n + 1;
    }
    proof {
        assert(key@ =~= store@.subrange(index + 1, index + 17));
        let rs = parse_record(store@, index as int).unwrap().1;
        assert(ranges@ =~= rs);
    }
    Some((key, ranges))
}

/// AES-128 decryption of the 16-byte `block` under the 16-byte `key`.
pub uninterp spec fn aes128_decrypt_block(key: Seq<u8>, block: Seq<u8>) -> [u8; 16];

/// Decrypts one block in place with `aes::Aes128`: the cipher is built from
/// `key` by `KeyInit::new` and applied by `BlockCipherDecrypt::decrypt_block`.
/// The contract states only that the new block is a function of the key and
/// the old block, named `aes128_decrypt_block` (16 bytes, as the block is).
#[verifier::external_body]
fn aes128_decrypt(key: &[u8; 16], block: &mut [u8; 16])
    ensures
        final(block)@ == aes128_decrypt_block(key@, old(block)@)@,
{
    let cipher = aes::Aes128::new(&aes::cipher::Key::<aes::Aes128>::from(*key));
    let mut b = aes::Block::from(*block);
    cipher.decrypt_block(&mut b);
    *block = b.into();
}

/// The whole blocks of `s`, each decrypted on its own.
pub open spec fn decrypt_blocks(key: Seq<u8>, s: Seq<u8>) -> Seq<u8>
    decreases s.len(),
{
    if s.len() < 16 {
        Seq::empty()
    } else {
        decrypt_blocks(key, s.subrange(0, s.len() - 16)) + aes128_decrypt_block(
            key,
            s.subrange(s.len() - 16, s.len() as int),
        )@
    }
}

/// `s` decrypted block by block; a last partial block is completed with the
/// first bytes of `tail`, decrypted, and cut back to its length.
pub open spec fn decrypt_span(key: Seq<u8>, s: Seq<u8>, tail: Seq<u8>) -> Seq<u8> {
    let n = s.len() - s.len() % 16;
    let rest = s.subrange(n, s.len() as int);
    decrypt_blocks(key, s.subrange(0, n)) + if rest.len() == 0 {
        Seq::<u8>::empty()
    } else {
        aes128_decrypt_block(key, rest + tail.subrange(0, 16 - rest.len()))@.subrange(
            0,
            rest.len() as int,
        )
    }
}

/// Decrypting the part of range `r` that falls in the data `b` read at
/// `file_offset`, with `head` and `tail` the bytes just before and after it.
/// A block that starts before the data is completed from `head`; the data
/// after it is then taken to start at `file_offset` plus the rest of that
/// block.
pub open spec fn range_step(
    key: Seq<u8>,
    r: Range,
    b: Seq<u8>,
    head: Seq<u8>,
    tail: Seq<u8>,
    file_offset: int,
) -> Seq<u8> {
    let len = b.len() as int;
    let fo = file_offset;
    let so0 = r.start_offset as int;
    let so = if fo >= so0 {
        so0 + (fo - so0) / 16 * 16
    } else {
        so0
    };
    let left = (fo - so) % 16;
    let left_len = 16 - left;
    let mid = if left_len < len {
        left_len
    } else {
        len
    };
    let b1 = if so < fo {
        let block = head.subrange(left_len, 16) + b.subrange(0, mid) + tail.subrange(
            0,
            16 - left - mid,
        );
        aes128_decrypt_block(key, block)@.subrange(left, left + mid) + b.subrange(mid, len)
    } else {
        b
    };
    let start = if so < fo {
        fo + left_len
    } else {
        so - fo
    };
    let end = if len < spec_end_offset(r) - fo {
        len
    } else {
        spec_end_offset(r) - fo
    };
    if start >= end {
        b1
    } else {
        b1.subrange(0, start) + decrypt_span(key, b1.subrange(start, end), tail) + b1.subrange(
            end,
            len,
        )
    }
}

/// The ranges from index `i` on, applied in turn until one starts at or
/// after the end of the data.
pub open spec fn decrypt_from(
    key: Seq<u8>,
    rs: Seq<Range>,
    i: int,
    b: Seq<u8>,
    head: Seq<u8>,
    tail: Seq<u8>,
    file_offset: int,
) -> Seq<u8>
    decreases rs.len() - i,
{
    if i < 0 || i >= rs.len() || rs[i].start_offset >= file_offset + b.len() {
        b
    } else {
        decrypt_from(
            key,
            rs,
            i + 1,
            range_step(key, rs[i], b, head, tail, file_offset),
            head,
            tail,
            file_offset,
        )
    }
}

/// The number of leading ranges that end at or before `file_offset`.
pub open spec fn lead_count(rs: Seq<Range>, file_offset: int) -> int
    decreases rs.len(),
{
    if rs.len() == 0 || spec_end_offset(rs[0]) > file_offset {
        0
    } else {
        1 + lead_count(rs.drop_first(), file_offset)
    }
}

/// The data `b` read at `file_offset` after decryption with `key` and `rs`.
pub open spec fn spec_decrypt(
    key: Seq<u8>,
    rs: Seq<Range>,
    b: Seq<u8>,
    head: Seq<u8>,
    tail: Seq<u8>,
    file_offset: int,
) -> Seq<u8> {
    decrypt_from(key, rs, lead_count(rs, file_offset), b, head, tail, file_offset)
}

/// Ranges as a store holds them: sorted by end offset, every end within 32 bits.
pub open spec fn ranges_valid(rs: Seq<Range>) -> bool {
    &&& sorted_by_end(rs)
    &&& forall|k: int| 0 <= k < rs.len() ==> spec_end_offset(#[trigger] rs[k]) <= u32::MAX
}

proof fn lemma_lead_count(rs: Seq<Range>, fo: int, p: int)
    requires
        0 <= p <= rs.len(),
        forall|k: int| 0 <= k < p ==> spec_end_offset(#[trigger] rs[k]) <= fo,
        p == rs.len() || spec_end_offset(rs[p]) > fo,
    ensures
        lead_count(rs, fo) == p,
    decreases p,
{
    if p > 0 {
        let t = rs.drop_first();
        assert forall|k: int| 0 <= k < p - 1 implies spec_end_offset(#[trigger] t[k]) <= fo by {
            assert(t[k] == rs[k + 1]);
        }
        if p < rs.len() {
            assert(t[p - 1] == rs[p]);
        }
        lemma_lead_count(t, fo, p - 1);
        assert(spec_end_offset(rs[0]) <= fo);
    }
}

/// The first range that ends after `file_offset`, by binary search.
fn partition_point(rs: &Vec<Range>, file_offset: u32) -> (p: usize)
    requires
        sorted_by_end(rs@),
    ensures
        p == lead_count(rs@, file_offset as int),
        p <= rs@.len(),
        forall|k: int| p <= k < rs@.len() ==> spec_end_offset(#[trigger] rs@[k]) > file_offset,
{
    let mut lo: usize = 0;
    let mut hi: usize = rs.len();
    while lo < hi
        invariant
            0 <= lo <= hi <= rs@.len(),
            sorted_by_end(rs@),
            forall|k: int| 0 <= k < lo ==> spec_end_offset(#[trigger] rs@[k]) <= file_offset,
            forall|k: int| hi <= k < rs@.len() ==> spec_end_offset(#[trigger] rs@[k]) > file_offset,
        decreases hi - lo,
    {
        let mid = lo + (hi - lo) / 2;
        if rs[mid].end_offset() <= file_offset as u64 {
            assert forall|k: int| 0 <= k <= mid implies spec_end_offset(#[trigger] rs@[k])
                <= file_offset by {
                assert(spec_end_offset(rs@[k]) <= spec_end_offset(rs@[mid as int]));
            }
            lo = mid + 1;
        } else {
            assert forall|k: int| mid <= k < rs@.len() implies spec_end_offset(#[trigger] rs@[k])
                > file_offset by {
                assert(spec_end_offset(rs@[mid as int]) <= spec_end_offset(rs@[k]));
            }
            hi = mid;
        }
    }
    proof {
        lemma_lead_count(rs@, file_offset as int, lo as int);
    }
    lo
}

/// Copies `n` bytes of `src` from `from` into `block` at `at`.
fn fill_block(block: &mut [u8; 16], at: usize, src: &[u8], from: usize, n: usize)
    requires
        at + n <= 16,
        from + n <= src@.len(),
    ensures
        final(block)@ == old(block)@.subrange(0, at as int) + src@.subrange(
            from as int,
            from + n,
        ) + old(block)@.subrange(at + n, 16),
{
    let src_len = src.len();
    let mut i: usize = 0;
    while i < n
        invariant
            0 <= i <= n,
            at + n <= 16,
            src_len == src@.len(),
            from + n <= src@.len(),
            block@.len() == 16,
            block@ == old(block)@.subrange(0, at as int) + src@.subrange(from as int, from + i)
                + old(block)@.subrange(at + i, 16),
        decreases n - i,
    {
        block[at + i] = src[from + i];
        i = i + 1;
        assert(block@ =~= old(block)@.subrange(0, at as int) + src@.subrange(from as int, from + i)
            + old(block)@.subrange(at + i, 16));
    }
}

/// Copies `n` bytes of `block` from `from` into `body` at `at`.
fn write_back(body: &mut Vec<u8>, at: usize, block: &[u8; 16], from: usize, n: usize)
    requires
        at + n <= old(body)@.len(),
        from + n <= 16,
    ensures
        final(body)@ == old(body)@.subrange(0, at as int) + block@.subrange(from as int, from + n)
            + old(body)@.subrange(at + n, old(body)@.len() as int),
{
    let len = body.len();
    let mut i: usize = 0;
    while i < n
        invariant
            0 <= i <= n,
            at + n <= len,
            from + n <= 16,
            body@.len() == len,
            len == old(body)@.len(),
            body@ == old(body)@.subrange(0, at as int) + block@.subrange(from as int, from + i)
                + old(body)@.subrange(at + i, len as int),
        decreases n - i,
    {
        body[at + i] = block[from + i];
        i = i + 1;
        assert(body@ =~= old(body)@.subrange(0, at as int) + block@.subrange(from as int, from + i)
            + old(body)@.subrange(at + i, len as int));
    }
}

/// Decrypts `body[start..end]` in place: whole blocks, then a partial last
/// block completed from `tail`.
fn decrypt_span_in_place(
    key: &[u8; 16],
    body: &mut Vec<u8>,
    start: usize,
    end: usize,
    tail: &[u8; 16],
)
    requires
        start < end <= old(body)@.len(),
    ensures
        final(body)@ == old(body)@.subrange(0, start as int) + decrypt_span(
            key@,
            old(body)@.subrange(start as int, end as int),
            tail@,
        ) + old(body)@.subrange(end as int, old(body)@.len() as int),
        final(body)@.len() == old(body)@.len(),
{
    let ghost b = body@;
    let len = body.len();
    let mut k = start;
    while end - k >= 16
        invariant
            start <= k <= end <= len,
            len == b.len(),
            (k - start) % 16 == 0,
            body@.len() == len,
            decrypt_blocks(key@, b.subrange(start as int, k as int)).len() == k - start,
            body@ == b.subrange(0, start as int) + decrypt_blocks(
                key@,
                b.subrange(start as int, k as int),
            ) + b.subrange(k as int, len as int),
        decreases end - k,
    {
        let ghost before = body@;
        let mut block = [0u8; 16];
        fill_block(&mut block, 0, body.as_slice(), k, 16);
        proof {
            assert(block@ =~= b.subrange(k as int, k + 16)) by {
                assert(before.subrange(k as int, k + 16) =~= b.subrange(k as int, k + 16));
            }
        }
        aes128_decrypt(key, &mut block);
        write_back(body, k, &block, 0, 16);
        proof {
            let s2 = b.subrange(start as int, k + 16);
            assert(s2.subrange(0, s2.len() - 16) =~= b.subrange(start as int, k as int));
            assert(s2.subrange(s2.len() - 16, s2.len() as int) =~= b.subrange(k as int, k + 16));
            assert(block@.subrange(0, 16) =~= block@);
            assert(body@ =~= b.subrange(0, start as int) + decrypt_blocks(key@, s2) + b.subrange(
                k + 16,
                len as int,
            ));
        }
        k = k + 16;
    }
    let ghost s = b.subrange(start as int, end as int);
    assert(k - start == s.len() - s.len() % 16) by (nonlinear_arith)
        requires
            (k - start) % 16 == 0,
            k <= end,
            k + 16 > end,
            s.len() == end - start,
            start <= k,
    ;
    assert(s.subrange(0, k - start) =~= b.subrange(start as int, k as int));
    if k < end {
        let m = end - k;
        let ghost before = body@;
        let mut block = [0u8; 16];
        fill_block(&mut block, 0, body.as_slice(), k, m);
        fill_block(&mut block, m, tail.as_slice(), 0, 16 - m);
        proof {
            let rest = s.subrange(k - start, s.len() as int);
            assert(block@ =~= rest + tail@.subrange(0, 16 - rest.len())) by {
                assert(before.subrange(k as int, end as int) =~= rest);
            }
        }
        aes128_decrypt(key, &mut block);
        write_back(body, k, &block, 0, m);
        proof {
            assert(body@ =~= b.subrange(0, start as int) + decrypt_span(key@, s, tail@)
                + b.subrange(end as int, len as int));
        }
    } else {
        proof {
            assert(s.subrange(s.len() as int, s.len() as int) =~= Seq::<u8>::empty());
            assert(body@ =~= b.subrange(0, start as int) + decrypt_span(key@, s, tail@)
                + b.subrange(end as int, len as int));
        }
    }
}

/// Decrypts in place the part of range `r` that falls in `body`.
fn range_step_in_place(
    key: &[u8; 16],
    r: Range,
    body: &mut Vec<u8>,
    head: &[u8; 16],
    tail: &[u8; 16],
    file_offset: u32,
)
    requires
        spec_end_offset(r) > file_offset,
        spec_end_offset(r) <= u32::MAX,
    ensures
        final(body)@ == range_step(key@, r, old(body)@, head@, tail@, file_offset as int),
        final(body)@.len() == old(body)@.len(),
{
    let ghost b = body@;
    let len = body.len();
    let fo = file_offset;
    let mut so = r.start_offset;
    if fo >= so {
        let delta = fo - so;
        assert(delta & 0xffff_fff0u32 == delta - delta % 16) by (bit_vector);
        so = so + (delta & 0xffff_fff0u32);
        assert(so == r.start_offset + (fo - r.start_offset) / 16 * 16);
    }
    let start: u64;
    if so < fo {
        let left = ((fo - so) % 16) as usize;
        let left_len = 16 - left;
        let mid = if left_len < len {
            left_len
        } else {
            len
        };
        let right = left + mid;
        let mut block = [0u8; 16];
        fill_block(&mut block, 0, head.as_slice(), left_len, left);
        fill_block(&mut block, left, body.as_slice(), 0, mid);
        fill_block(&mut block, right, tail.as_slice(), 0, 16 - right);
        proof {
            assert(block@ =~= head@.subrange(left_len as int, 16) + b.subrange(0, mid as int)
                + tail@.subrange(0, 16 - left - mid));
        }
        aes128_decrypt(key, &mut block);
        write_back(body, 0, &block, left, mid);
        start = fo as u64 + left_len as u64;
    } else {
        start = (so - fo) as u64;
    }
    let ghost b1 = body@;
    let end_rel = r.end_offset() - fo as u64;
    let end: u64 = if (len as u64) < end_rel {
        len as u64
    } else {
        end_rel
    };
    if start < end {
        decrypt_span_in_place(key, body, start as usize, end as usize, tail);
    }
}

/// Decrypts `body`, read at `file_offset` with `head` and `tail` around it,
/// by the ranges `rs` of a record with key `key`.
pub(crate) fn decrypt_in_place(
    key: &[u8; 16],
    rs: &Vec<Range>,
    body: &mut Vec<u8>,
    head: &[u8; 16],
    tail: &[u8; 16],
    file_offset: u32,
)
    requires
        ranges_valid(rs@),
        file_offset + old(body)@.len() <= u32::MAX,
    ensures
        final(body)@ == spec_decrypt(key@, rs@, old(body)@, head@, tail@, file_offset as int),
{
    let len = body.len();
    let p = partition_point(rs, file_offset);
    let mut i = p;
    while i < rs.len() && (rs[i].start_offset as u64) < file_offset as u64 + len as u64
        invariant
            p <= i <= rs@.len(),
            body@.len() == len,
            file_offset + len <= u32::MAX,
            ranges_valid(rs@),
            forall|k: int| p <= k < rs@.len() ==> spec_end_offset(#[trigger] rs@[k]) > file_offset,
            spec_decrypt(key@, rs@, old(body)@, head@, tail@, file_offset as int) == decrypt_from(
                key@,
                rs@,
                i as int,
                body@,
                head@,
                tail@,
                file_offset as int,
            ),
        decreases rs@.len() - i,
    {
        let r = rs[i];
        assert(spec_end_offset(rs@[i as int]) > file_offset);
        range_step_in_place(key, r, body, head, tail, file_offset);
        i = i + 1;
    }
}

proof fn lemma_insert_pos_splits(s: Seq<Range>, x: Range)
    requires
        sorted_by_end(s),
    ensures
        0 <= insert_pos(s, x) <= s.len(),
        forall|k: int|
            0 <= k < insert_pos(s, x) ==> spec_end_offset(#[trigger] s[k]) <= spec_end_offset(x),
        forall|k: int|
            insert_pos(s, x) <= k < s.len() ==> spec_end_offset(#[trigger] s[k]) > spec_end_offset(
                x,
            ),
    decreases s.len(),
{
    if s.len() > 0 {
        let init = s.drop_last();
        assert(sorted_by_end(init)) by {
            assert forall|i: int, j: int| 0 <= i <= j < init.len() implies spec_end_offset(
                #[trigger] init[i],
            ) <= spec_end_offset(#[trigger] init[j]) by {
                assert(init[i] == s[i] && init[j] == s[j]);
            }
        }
        lemma_insert_pos_splits(init, x);
        if spec_end_offset(s.last()) <= spec_end_offset(x) {
            assert forall|k: int| 0 <= k < s.len() implies spec_end_offset(#[trigger] s[k])
                <= spec_end_offset(x) by {
                assert(spec_end_offset(s[k]) <= spec_end_offset(s[s.len() - 1]));
            }
        } else {
            assert forall|k: int| 0 <= k < insert_pos(s, x) implies spec_end_offset(
                #[trigger] s[k],
            ) <= spec_end_offset(x) by {
                assert(s[k] == init[k]);
            }
            assert forall|k: int| insert_pos(s, x) <= k < s.len() implies spec_end_offset(
                #[trigger] s[k],
            ) > spec_end_offset(x) by {
                if k < init.len() {
                    assert(s[k] == init[k]);
                }
            }
        }
    }
}

/// Sorting by end offset gives ranges sorted by end offset, drawn from the
/// input: a property that every input range has, every output range has.
pub proof fn lemma_sort_by_end_sorted(s: Seq<Range>, bound: int)
    requires
        forall|k: int| 0 <= k < s.len() ==> spec_end_offset(#[trigger] s[k]) <= bound,
    ensures
        sorted_by_end(sort_by_end(s)),
        sort_by_end(s).len() == s.len(),
        forall|k: int|
            0 <= k < s.len() ==> spec_end_offset(#[trigger] sort_by_end(s)[k]) <= bound,
    decreases s.len(),
{
    if s.len() > 0 {
        let init = s.drop_last();
        let x = s.last();
        assert forall|k: int| 0 <= k < init.len() implies spec_end_offset(#[trigger] init[k])
            <= bound by {
            assert(init[k] == s[k]);
        }
        lemma_sort_by_end_sorted(init, bound);
        let sorted = sort_by_end(init);
        lemma_insert_pos_splits(sorted, x);
        let p = insert_pos(sorted, x);
        let r = sorted.insert(p, x);
        assert(r == sort_by_end(s));
        assert forall|i: int, j: int| 0 <= i <= j < r.len() implies spec_end_offset(
            #[trigger] r[i],
        ) <= spec_end_offset(#[trigger] r[j]) by {
            if i < p && j < p {
                assert(r[i] == sorted[i] && r[j] == sorted[j]);
            } else if i < p && j == p {
                assert(r[i] == sorted[i]);
            } else if i < p {
                assert(r[i] == sorted[i] && r[j] == sorted[j - 1]);
            } else if i == p && j > p {
                assert(r[j] == sorted[j - 1]);
            } else if i > p {
                assert(r[i] == sorted[i - 1] && r[j] == sorted[j - 1]);
            }
        }
        assert forall|k: int| 0 <= k < s.len() implies spec_end_offset(#[trigger] r[k]) <= bound by {
            if k < p {
                assert(r[k] == sorted[k]);
            } else if k > p {
                assert(r[k] == sorted[k - 1]);
            }
        }
    }
}

proof fn lemma_collect_fit(file_offset: u64, file_size: u64, rs: Seq<EncryptionRange>)
    requires
        file_size <= u32::MAX,
    ensures
        collect_ranges(file_offset, file_size, rs) matches Ok(v) ==> forall|k: int|
            0 <= k < v.len() ==> spec_end_offset(#[trigger] v[k]) <= u32::MAX,
    decreases rs.len(),
{
    if rs.len() > 0 {
        lemma_collect_fit(file_offset, file_size, rs.drop_last());
        let r = rs.last();
        let start = r.start_offset as int;
        let end = r.end_offset as int;
        if start <= end {
            let len = end - start;
            if len != 0 && len % 16 == 0 {
                assert((len % 0x1_0000_0000) / 16 * 16 <= len % 0x1_0000_0000);
                if file_size >= len {
                    assert(len % 0x1_0000_0000 == len);
                }
            }
        }
    }
}

/// What storing a file's encryption appends reads back, wherever it lands in
/// a store, as the file's key and its ranges sorted by end offset, ready for
/// decryption.
pub proof fn lemma_store_reads_back(
    entry: FileEntry,
    enc: EncryptionView,
    before: Seq<u8>,
    after: Seq<u8>,
)
    requires
        enc.key.len() == BLOCK_SIZE,
    ensures
        spec_store(entry, enc, before.len() as int) matches Ok((index, bytes)) ==> {
            &&& index == before.len()
            &&& parse_record(before + bytes + after, index) matches Some((key, rs))
            &&& key == enc.key
            &&& ranges_valid(rs)
        },
{
    let file_size = if entry.file_size < 0 {
        0u64
    } else {
        entry.file_size as u64
    };
    lemma_collect_fit(entry.file_offset, file_size, enc.ranges);
    if let Ok(v) = collect_ranges(entry.file_offset, file_size, enc.ranges) {
        lemma_sort_by_end_sorted(v, u32::MAX as int);
        if v.len() <= 0xff_ffff {
            lemma_parse_stored_record(before, enc.key, sort_by_end(v), after);
        }
    }
}
} // verus!
