//! The BHD5 layout: header, bucket headers, file entries and their
//! encryption ranges, parsed from bytes in either byte order.

use vstd::prelude::*;

use crate::bhd5::byte_order::{
    read_i32, read_u32, read_u64, spec_bom, spec_i32, spec_u32, spec_u64, Bom, ByteOrder, OneU32,
    ZeroU32,
};

verus! {

/// The length of the fixed BHD5 header.
pub const BHD5_HEADER_LEN: usize = 32;

/// The offset of the salt string that follows the header's 32-bit bucket offset.
pub const SALT_OFFSET: usize = 24;

/// The game generation whose BHD5 layout a file follows.
#[derive(Clone, Copy, Debug, PartialEq, Eq, Structural)]
pub enum Format {
    DarkSouls,
    DarkSoulsRemastered,
    DarkSouls2,
    DarkSouls3,
    EldenRing,
}

/// Why the fixed header could not be read.
#[derive(Clone, Copy, Debug, PartialEq, Eq, Structural)]
pub enum TryCastError {
    /// Fewer than `BHD5_HEADER_LEN` bytes.
    Size,
    /// A constant field (magic, byte order mark, padding, flag) has another value.
    Validity,
}

/// The magic `BHD5` that starts every archive index.
pub struct Bhd5Magic;

impl Bhd5Magic {
    pub fn matches(bytes: &[u8]) -> (r: bool)
        requires
            bytes@.len() >= 4,
        ensures
            r == (bytes@[0] == 0x42u8 && bytes@[1] == 0x48u8 && bytes@[2] == 0x44u8 && bytes@[3]
                == 0x35u8),
    {
        bytes[0] == 0x42 && bytes[1] == 0x48 && bytes[2] == 0x44 && bytes[3] == 0x35
    }
}

/// The fixed 32-byte BHD5 header.
#[derive(Clone, Copy, Debug, PartialEq, Eq, Structural)]
pub struct Header {
    /// The byte order named by the byte order mark.
    pub order: ByteOrder,
    /// Whether integrity hashes or encryption may be present.
    pub has_crypto: bool,
    /// The unpadded file size.
    pub file_size: u32,
    /// The number of buckets.
    pub bucket_count: i32,
    /// The 32-bit bucket header offset, zero in the DSR format.
    pub bucket_offset: u32,
    /// The 64-bit bucket header offset (DSR) or the salt length in its first four bytes.
    pub bucket_offset2_or_salt_len: u64,
}

/// The bytes start with a well-formed header in byte order `order`: the magic
/// `BHD5`, the byte order mark, a boolean crypto flag, two zero bytes and the
/// 32-bit constant one.
pub open spec fn header_valid(b: Seq<u8>, order: ByteOrder) -> bool {
    &&& b.len() >= BHD5_HEADER_LEN
    &&& b[0] == 0x42u8 && b[1] == 0x48u8 && b[2] == 0x44u8 && b[3] == 0x35u8
    &&& b[4] == spec_bom(order)
    &&& (b[5] == 0u8 || b[5] == 1u8)
    &&& b[6] == 0u8 && b[7] == 0u8
    &&& spec_u32(b, 8, order) == 1
}

pub open spec fn spec_header(b: Seq<u8>, order: ByteOrder) -> Header {
    Header {
        order,
        has_crypto: b[5] == 1u8,
        file_size: spec_u32(b, 12, order) as u32,
        bucket_count: spec_i32(b, 16, order) as i32,
        bucket_offset: spec_u32(b, 20, order) as u32,
        bucket_offset2_or_salt_len: spec_u64(b, 24, order) as u64,
    }
}

impl Header {
    pub open spec fn spec_is_dsr_format(self) -> bool {
        self.bucket_offset == 0
    }

    pub open spec fn spec_bucket_count(self) -> int {
        if self.bucket_count < 0 {
            0
        } else {
            self.bucket_count as int
        }
    }

    pub open spec fn spec_bucket_offset(self) -> int {
        if self.spec_is_dsr_format() {
            self.bucket_offset2_or_salt_len as int
        } else {
            self.bucket_offset as int
        }
    }

    /// The first four bytes of the 64-bit field, read in the file's byte order.
    pub open spec fn spec_salt_field(self) -> int {
        match self.order {
            ByteOrder::Little => self.bucket_offset2_or_salt_len as int % 0x1_0000_0000,
            ByteOrder::Big => self.bucket_offset2_or_salt_len as int / 0x1_0000_0000,
        }
    }

    /// A salt string follows the header when the format is not DSR and the
    /// salt ends at or before the bucket headers.
    pub open spec fn spec_salt_len(self) -> Option<int> {
        if self.spec_is_dsr_format() {
            None
        } else if SALT_OFFSET + self.spec_salt_field() <= self.bucket_offset as int {
            Some(self.spec_salt_field())
        } else {
            None
        }
    }

    /// Reads the header at the start of `bytes` in byte order `order`.
    pub fn try_ref_from_prefix(bytes: &[u8], order: ByteOrder) -> (r: Result<Header, TryCastError>)
        ensures
            r is Ok <==> header_valid(bytes@, order),
            r matches Ok(h) ==> h == spec_header(bytes@, order),
            r == Err::<Header, TryCastError>(TryCastError::Size) <==> bytes@.len()
                < BHD5_HEADER_LEN,
    {
        if bytes.len() < BHD5_HEADER_LEN {
            return Err(TryCastError::Size);
        }
        if !Bhd5Magic::matches(bytes) {
            return Err(TryCastError::Validity);
        }
        if bytes[4] != Bom::value(order) || bytes[5] > 1 || bytes[6] != 0 || bytes[7] != 0 {
            return Err(TryCastError::Validity);
        }
        if !OneU32::matches(bytes, 8, order) {
            return Err(TryCastError::Validity);
        }
        Ok(
            Header {
                order,
                has_crypto: bytes[5] == 1,
                file_size: read_u32(bytes, 12, order),
                bucket_count: read_i32(bytes, 16, order),
                bucket_offset: read_u32(bytes, 20, order),
                bucket_offset2_or_salt_len: read_u64(bytes, 24, order),
            },
        )
    }

    pub fn is_dsr_format(&self) -> (r: bool)
        ensures
            r == self.spec_is_dsr_format(),
    {
        self.bucket_offset == 0
    }

    /// The number of buckets; a negative count means none.
    pub fn bucket_count(&self) -> (r: usize)
        ensures
            r == self.spec_bucket_count(),
    {
        if self.bucket_count < 0 {
            0
        } else {
            self.bucket_count as usize
        }
    }

    pub fn bucket_offset(&self) -> (r: u64)
        ensures
            r == self.spec_bucket_offset(),
    {
        if self.is_dsr_format() {
            self.bucket_offset2_or_salt_len
        } else {
            self.bucket_offset as u64
        }
    }

    pub fn salt_len(&self) -> (r: Option<usize>)
        ensures
            r matches Some(l) ==> self.spec_salt_len() == Some(l as int),
            r is None ==> self.spec_salt_len() is None,
    {
        if self.is_dsr_format() {
            return None;
        }
        let field: u32 = match self.order {
            ByteOrder::Little => (self.bucket_offset2_or_salt_len % 0x1_0000_0000) as u32,
            ByteOrder::Big => (self.bucket_offset2_or_salt_len / 0x1_0000_0000) as u32,
        };
        match (SALT_OFFSET as u32).checked_add(field) {
            Some(end) => {
                if end <= self.bucket_offset {
                    Some(field as usize)
                } else {
                    None
                }
            },
            None => None,
        }
    }
}

/// The binary layout of the file entries of one format generation.
#[derive(Clone, Copy, Debug, PartialEq, Eq, Structural)]
pub enum EntryLayout {
    /// 16 bytes: 32-bit hash, size, offset.
    DarkSouls,
    /// 32 bytes: adds the hash and encryption offsets.
    DarkSouls2,
    /// 40 bytes: adds the unpadded size and four zero bytes.
    DarkSouls3,
    /// 40 bytes: 64-bit hash, size, unpadded size, offsets.
    EldenRing,
}

/// The binary layout of the bucket headers.
#[derive(Clone, Copy, Debug, PartialEq, Eq, Structural)]
pub enum BucketLayout {
    /// 8 bytes: entry count and 32-bit entry offset.
    All,
    /// 16 bytes: entry count, the constant one and a 64-bit entry offset.
    Dsr,
}

/// One file of the archive, as described by its entry; fields that the
/// entry's layout lacks are zero.
#[derive(Clone, Copy, Debug, PartialEq, Eq, Structural)]
pub struct FileEntry {
    pub layout: EntryLayout,
    pub path_hash: u64,
    pub file_size: i32,
    pub file_offset: u64,
    pub file_hash_offset: u64,
    pub encryption_offset: u64,
    pub unpadded_file_size: i32,
}

pub open spec fn entry_size(l: EntryLayout) -> int {
    match l {
        EntryLayout::DarkSouls => 16,
        EntryLayout::DarkSouls2 => 32,
        EntryLayout::DarkSouls3 => 40,
        EntryLayout::EldenRing => 40,
    }
}

pub open spec fn bucket_header_size(l: BucketLayout) -> int {
    match l {
        BucketLayout::All => 8,
        BucketLayout::Dsr => 16,
    }
}

/// The constant fields of an entry hold their values (the trailing zero
/// 32-bit word of the Dark Souls 3 layout).
pub open spec fn entry_wellformed(b: Seq<u8>, off: int, l: EntryLayout, o: ByteOrder) -> bool {
    l == EntryLayout::DarkSouls3 ==> spec_u32(b, off + 36, o) == 0
}

pub open spec fn spec_entry(b: Seq<u8>, off: int, l: EntryLayout, o: ByteOrder) -> FileEntry {
    match l {
        EntryLayout::DarkSouls => FileEntry {
            layout: l,
            path_hash: spec_u32(b, off, o) as u64,
            file_size: spec_i32(b, off + 4, o) as i32,
            file_offset: spec_u64(b, off + 8, o) as u64,
            file_hash_offset: 0,
            encryption_offset: 0,
            unpadded_file_size: 0,
        },
        EntryLayout::DarkSouls2 => FileEntry {
            layout: l,
            path_hash: spec_u32(b, off, o) as u64,
            file_size: spec_i32(b, off + 4, o) as i32,
            file_offset: spec_u64(b, off + 8, o) as u64,
            file_hash_offset: spec_u64(b, off + 16, o) as u64,
            encryption_offset: spec_u64(b, off + 24, o) as u64,
            unpadded_file_size: 0,
        },
        EntryLayout::DarkSouls3 => FileEntry {
            layout: l,
            path_hash: spec_u32(b, off, o) as u64,
            file_size: spec_i32(b, off + 4, o) as i32,
            file_offset: spec_u64(b, off + 8, o) as u64,
            file_hash_offset: spec_u64(b, off + 16, o) as u64,
            encryption_offset: spec_u64(b, off + 24, o) as u64,
            unpadded_file_size: spec_i32(b, off + 32, o) as i32,
        },
        EntryLayout::EldenRing => FileEntry {
            layout: l,
            path_hash: spec_u64(b, off, o) as u64,
            file_size: spec_i32(b, off + 8, o) as i32,
            unpadded_file_size: spec_i32(b, off + 12, o) as i32,
            file_offset: spec_u64(b, off + 16, o) as u64,
            file_hash_offset: spec_u64(b, off + 24, o) as u64,
            encryption_offset: spec_u64(b, off + 32, o) as u64,
        },
    }
}

/// With crypto, the hash and encryption offsets point inside the header's
/// file size; without, both are zero.
pub open spec fn crypto_offsets_valid(e: FileEntry, h: Header) -> bool {
    if h.has_crypto {
        e.encryption_offset < h.file_size && e.file_hash_offset < h.file_size
    } else {
        e.encryption_offset == 0 && e.file_hash_offset == 0
    }
}

pub open spec fn entry_valid(e: FileEntry, h: Header) -> bool {
    match e.layout {
        EntryLayout::DarkSouls => e.file_size >= 0,
        EntryLayout::DarkSouls2 => e.file_size >= 0 && crypto_offsets_valid(e, h),
        _ => e.file_size >= 0 && e.unpadded_file_size >= 0 && e.file_size
            >= e.unpadded_file_size && crypto_offsets_valid(e, h),
    }
}

/// `count` elements of `size` bytes starting at `off` lie within `len` bytes.
pub open spec fn slice_fits(len: int, off: int, count: int, size: int) -> bool {
    0 <= off && 0 <= count && off + count * size <= len
}

pub open spec fn bucket_header_pos(h: Header, bl: BucketLayout, k: int) -> int {
    h.spec_bucket_offset() + k * bucket_header_size(bl)
}

pub open spec fn bucket_entry_count(b: Seq<u8>, h: Header, bl: BucketLayout, k: int) -> int {
    spec_i32(b, bucket_header_pos(h, bl, k), h.order)
}

pub open spec fn bucket_entry_offset(b: Seq<u8>, h: Header, bl: BucketLayout, k: int) -> int {
    let p = bucket_header_pos(h, bl, k);
    match bl {
        BucketLayout::All => spec_u32(b, p + 4, h.order),
        BucketLayout::Dsr => spec_u64(b, p + 8, h.order),
    }
}

/// Bucket `k` has a well-formed header whose entries lie within the bytes
/// and are well-formed.
pub open spec fn bucket_ok(b: Seq<u8>, h: Header, bl: BucketLayout, el: EntryLayout, k: int) -> bool {
    let p = bucket_header_pos(h, bl, k);
    let count = bucket_entry_count(b, h, bl, k);
    let eo = bucket_entry_offset(b, h, bl, k);
    &&& (bl == BucketLayout::Dsr ==> spec_u32(b, p + 4, h.order) == 1)
    &&& slice_fits(b.len() as int, eo, count, entry_size(el))
    &&& forall|t: int|
        0 <= t < count ==> #[trigger] entry_wellformed(b, eo + t * entry_size(el), el, h.order)
}

pub open spec fn spec_bucket(b: Seq<u8>, h: Header, bl: BucketLayout, el: EntryLayout, k: int) -> Seq<
    FileEntry,
> {
    let count = bucket_entry_count(b, h, bl, k);
    let eo = bucket_entry_offset(b, h, bl, k);
    Seq::new(count as nat, |t: int| spec_entry(b, eo + t * entry_size(el), el, h.order))
}

pub open spec fn spec_buckets(b: Seq<u8>, h: Header, bl: BucketLayout, el: EntryLayout) -> Seq<
    Seq<FileEntry>,
> {
    Seq::new(h.spec_bucket_count() as nat, |k: int| spec_bucket(b, h, bl, el, k))
}

/// The bucket headers and all buckets lie within the bytes and are well-formed.
pub open spec fn buckets_structure_ok(
    b: Seq<u8>,
    h: Header,
    bl: BucketLayout,
    el: EntryLayout,
) -> bool {
    &&& slice_fits(
        b.len() as int,
        h.spec_bucket_offset(),
        h.spec_bucket_count(),
        bucket_header_size(bl),
    )
    &&& forall|k: int| 0 <= k < h.spec_bucket_count() ==> #[trigger] bucket_ok(b, h, bl, el, k)
}

/// At most one entry of the whole archive has file offset zero.
pub open spec fn at_most_one_zero_offset(es: Seq<FileEntry>) -> bool {
    forall|i: int, j: int|
        0 <= i < j < es.len() ==> !(#[trigger] es[i].file_offset == 0 && #[trigger] es[j].file_offset
            == 0)
}

pub open spec fn entries_valid(es: Seq<FileEntry>, h: Header) -> bool {
    &&& forall|i: int| 0 <= i < es.len() ==> #[trigger] entry_valid(es[i], h)
    &&& at_most_one_zero_offset(es)
}

pub open spec fn buckets_ok(b: Seq<u8>, h: Header, bl: BucketLayout, el: EntryLayout) -> bool {
    &&& buckets_structure_ok(b, h, bl, el)
    &&& entries_valid(spec_buckets(b, h, bl, el).flatten_alt(), h)
}

/// One encrypted byte range of a file.
#[derive(Clone, Copy, Debug, PartialEq, Eq, Structural)]
pub struct EncryptionRange {
    pub start_offset: u64,
    pub end_offset: u64,
}

/// The AES key and encrypted ranges of one file.
#[derive(Debug)]
pub struct Encryption {
    pub key: Vec<u8>,
    pub range_count: i32,
    pub ranges: Vec<EncryptionRange>,
}

pub ghost struct EncryptionView {
    pub key: Seq<u8>,
    pub range_count: i32,
    pub ranges: Seq<EncryptionRange>,
}

impl View for Encryption {
    type V = EncryptionView;

    open spec fn view(&self) -> EncryptionView {
        EncryptionView { key: self.key@, range_count: self.range_count, ranges: self.ranges@ }
    }
}

/// An encryption record (16-byte key, range count, ranges) lies at `off`.
pub open spec fn encryption_ok(b: Seq<u8>, off: int, o: ByteOrder) -> bool {
    &&& 0 <= off && off + 20 <= b.len()
    &&& spec_i32(b, off + 16, o) >= 0
    &&& off + 20 + spec_i32(b, off + 16, o) * 16 <= b.len()
}

pub open spec fn spec_encryption(b: Seq<u8>, off: int, o: ByteOrder) -> EncryptionView {
    let n = spec_i32(b, off + 16, o);
    EncryptionView {
        key: b.subrange(off, off + 16),
        range_count: n as i32,
        ranges: Seq::new(
            n as nat,
            |k: int|
                EncryptionRange {
                    start_offset: spec_u64(b, off + 20 + k * 16, o) as u64,
                    end_offset: spec_u64(b, off + 28 + k * 16, o) as u64,
                },
        ),
    }
}

/// Every entry with a nonzero encryption offset points at an encryption record.
pub open spec fn encryptions_ok(b: Seq<u8>, es: Seq<FileEntry>, o: ByteOrder) -> bool {
    forall|i: int|
        0 <= i < es.len() ==> #[trigger] es[i].encryption_offset == 0 || encryption_ok(
            b,
            es[i].encryption_offset as int,
            o,
        )
}

pub open spec fn spec_encryptions(b: Seq<u8>, es: Seq<FileEntry>, o: ByteOrder) -> Seq<
    Option<EncryptionView>,
> {
    Seq::new(
        es.len(),
        |i: int|
            if es[i].encryption_offset == 0 {
                None
            } else {
                Some(spec_encryption(b, es[i].encryption_offset as int, o))
            },
    )
}

/// Why the archive index could not be read.
#[derive(Clone, Copy, Debug, PartialEq, Eq, Structural)]
pub enum TryRefFileError {
    Header(TryCastError),
    /// A bucket or file entry is malformed.
    Bucket,
    /// A file's encryption data is malformed.
    Encryption,
}

pub open spec fn spec_try_layout(b: Seq<u8>, h: Header, bl: BucketLayout, el: EntryLayout) -> Result<
    (Seq<Seq<FileEntry>>, Seq<Option<EncryptionView>>),
    TryRefFileError,
> {
    let bs = spec_buckets(b, h, bl, el);
    if !buckets_ok(b, h, bl, el) {
        Err(TryRefFileError::Bucket)
    } else if !encryptions_ok(b, bs.flatten_alt(), h.order) {
        Err(TryRefFileError::Encryption)
    } else {
        Ok((bs, spec_encryptions(b, bs.flatten_alt(), h.order)))
    }
}

pub open spec fn view_buckets(v: Seq<Vec<FileEntry>>) -> Seq<Seq<FileEntry>> {
    Seq::new(v.len(), |k: int| v[k]@)
}

proof fn lemma_fits_div(count: int, rem: int, size: int)
    requires
        0 <= count,
        0 <= rem,
        0 < size,
    ensures
        count * size <= rem <==> count <= rem / size,
{
    let q = rem / size;
    let r = rem % size;
    vstd::arithmetic::div_mod::lemma_fundamental_div_mod(rem, size);
    vstd::arithmetic::div_mod::lemma_mod_pos_bound(rem, size);
    assert(count * size <= rem <==> count <= q) by (nonlinear_arith)
        requires
            rem == size * q + r,
            0 <= r < size,
            0 <= count,
            0 < size,
    ;
}

/// Whether `count` elements of `size` bytes at `off` lie within `len` bytes.
fn fits(len: usize, off: u64, count: u64, size: usize) -> (r: bool)
    requires
        size > 0,
    ensures
        r == slice_fits(len as int, off as int, count as int, size as int),
{
    if off > len as u64 {
        return false;
    }
    let rem = len - off as usize;
    proof {
        lemma_fits_div(count as int, rem as int, size as int);
    }
    count <= (rem / size) as u64
}

fn entry_size_exec(l: EntryLayout) -> (r: usize)
    ensures
        r == entry_size(l),
{
    match l {
        EntryLayout::DarkSouls => 16,
        EntryLayout::DarkSouls2 => 32,
        EntryLayout::DarkSouls3 => 40,
        EntryLayout::EldenRing => 40,
    }
}

fn bucket_header_size_exec(l: BucketLayout) -> (r: usize)
    ensures
        r == bucket_header_size(l),
{
    match l {
        BucketLayout::All => 8,
        BucketLayout::Dsr => 16,
    }
}

impl FileEntry {
    /// Reads an entry of layout `l` at `off`, or `None` when a constant field
    /// has another value.
    pub fn read(bytes: &[u8], off: usize, l: EntryLayout, o: ByteOrder) -> (r: Option<FileEntry>)
        requires
            off + entry_size(l) <= bytes@.len(),
        ensures
            r is Some <==> entry_wellformed(bytes@, off as int, l, o),
            r matches Some(e) ==> e == spec_entry(bytes@, off as int, l, o),
    {
        let _len = bytes.len();
        match l {
            EntryLayout::DarkSouls => Some(
                FileEntry {
                    layout: l,
                    path_hash: read_u32(bytes, off, o) as u64,
                    file_size: read_i32(bytes, off + 4, o),
                    file_offset: read_u64(bytes, off + 8, o),
                    file_hash_offset: 0,
                    encryption_offset: 0,
                    unpadded_file_size: 0,
                },
            ),
            EntryLayout::DarkSouls2 => Some(
                FileEntry {
                    layout: l,
                    path_hash: read_u32(bytes, off, o) as u64,
                    file_size: read_i32(bytes, off + 4, o),
                    file_offset: read_u64(bytes, off + 8, o),
                    file_hash_offset: read_u64(bytes, off + 16, o),
                    encryption_offset: read_u64(bytes, off + 24, o),
                    unpadded_file_size: 0,
                },
            ),
            EntryLayout::DarkSouls3 => {
                if !ZeroU32::matches(bytes, off + 36) {
                    return None;
                }
                Some(
                    FileEntry {
                        layout: l,
                        path_hash: read_u32(bytes, off, o) as u64,
                        file_size: read_i32(bytes, off + 4, o),
                        file_offset: read_u64(bytes, off + 8, o),
                        file_hash_offset: read_u64(bytes, off + 16, o),
                        encryption_offset: read_u64(bytes, off + 24, o),
                        unpadded_file_size: read_i32(bytes, off + 32, o),
                    },
                )
            },
            EntryLayout::EldenRing => Some(
                FileEntry {
                    layout: l,
                    path_hash: read_u64(bytes, off, o),
                    file_size: read_i32(bytes, off + 8, o),
                    unpadded_file_size: read_i32(bytes, off + 12, o),
                    file_offset: read_u64(bytes, off + 16, o),
                    file_hash_offset: read_u64(bytes, off + 24, o),
                    encryption_offset: read_u64(bytes, off + 32, o),
                },
            ),
        }
    }

    /// Whether the path hash is 64 bits wide (Elden Ring) rather than 32.
    pub fn u64_hash(&self) -> (r: bool)
        ensures
            r == (self.layout == EntryLayout::EldenRing),
    {
        match self.layout {
            EntryLayout::EldenRing => true,
            _ => false,
        }
    }

    pub fn path_hash(&self) -> (r: u64)
        ensures
            r == self.path_hash,
    {
        self.path_hash
    }

    pub fn file_offset(&self) -> (r: u64)
        ensures
            r == self.file_offset,
    {
        self.file_offset
    }

    /// The padded file size; a negative size reads as zero.
    pub fn file_size(&self) -> (r: u32)
        ensures
            r == if self.file_size < 0 {
                0
            } else {
                self.file_size as int
            },
    {
        if self.file_size < 0 {
            0
        } else {
            self.file_size as u32
        }
    }

    /// The unpadded size, in the layouts that record one, when it is positive.
    pub fn unpadded_file_size(&self) -> (r: Option<u32>)
        ensures
            r == (if (self.layout == EntryLayout::DarkSouls3 || self.layout
                == EntryLayout::EldenRing) && self.unpadded_file_size > 0 {
                Some(self.unpadded_file_size as u32)
            } else {
                None::<u32>
            }),
    {
        match self.layout {
            EntryLayout::DarkSouls | EntryLayout::DarkSouls2 => None,
            _ => {
                if self.unpadded_file_size > 0 {
                    Some(self.unpadded_file_size as u32)
                } else {
                    None
                }
            },
        }
    }

    /// The offset of the encryption record, in the layouts that have one, when nonzero.
    pub fn encryption_offset(&self) -> (r: Option<u64>)
        ensures
            r == (if self.layout != EntryLayout::DarkSouls && self.encryption_offset != 0 {
                Some(self.encryption_offset)
            } else {
                None::<u64>
            }),
    {
        match self.layout {
            EntryLayout::DarkSouls => None,
            _ => {
                if self.encryption_offset != 0 {
                    Some(self.encryption_offset)
                } else {
                    None
                }
            },
        }
    }

    /// The entry's own consistency against the header (sizes and crypto offsets).
    pub fn is_valid(&self, header: &Header) -> (r: bool)
        ensures
            r == entry_valid(*self, *header),
    {
        let crypto_ok = if header.has_crypto {
            self.encryption_offset < header.file_size as u64 && self.file_hash_offset
                < header.file_size as u64
        } else {
            self.encryption_offset == 0 && self.file_hash_offset == 0
        };
        match self.layout {
            EntryLayout::DarkSouls => self.file_size >= 0,
            EntryLayout::DarkSouls2 => self.file_size >= 0 && crypto_ok,
            _ => self.file_size >= 0 && self.unpadded_file_size >= 0 && self.file_size
                >= self.unpadded_file_size && crypto_ok,
        }
    }
}

/// Reads every bucket header and every bucket's entries, checking only that
/// they lie within the bytes and are well-formed.
#[verifier::rlimit(40)]
fn try_ref_bucket_structure(bytes: &[u8], header: &Header, bl: BucketLayout, el: EntryLayout) -> (r:
    Option<Vec<Vec<FileEntry>>>)
    ensures
        r is Some <==> buckets_structure_ok(bytes@, *header, bl, el),
        r matches Some(v) ==> view_buckets(v@) == spec_buckets(bytes@, *header, bl, el),
{
    let len = bytes.len();
    let o = header.order;
    let count = header.bucket_count();
    let offset = header.bucket_offset();
    let bhs = bucket_header_size_exec(bl);
    let es = entry_size_exec(el);
    if !fits(len, offset, count as u64, bhs) {
        return None;
    }
    let offset = offset as usize;
    let ghost h = *header;
    let ghost sb = spec_buckets(bytes@, h, bl, el);
    let mut buckets: Vec<Vec<FileEntry>> = Vec::new();
    let mut k: usize = 0;
    while k < count
        invariant
            len == bytes@.len(),
            h == *header,
            o == h.order,
            count == h.spec_bucket_count(),
            offset == h.spec_bucket_offset(),
            bhs == bucket_header_size(bl),
            es == entry_size(el),
            sb == spec_buckets(bytes@, h, bl, el),
            slice_fits(len as int, offset as int, count as int, bhs as int),
            k <= count,
            buckets@.len() == k,
            forall|j: int| 0 <= j < k ==> #[trigger] buckets@[j]@ == sb[j],
            forall|j: int| 0 <= j < k ==> #[trigger] bucket_ok(bytes@, h, bl, el, j),
        decreases count - k,
    {
        proof {
            assert(k * bhs + bhs <= count * bhs) by (nonlinear_arith)
                requires
                    k < count,
                    bhs > 0,
            ;
        }
        let p = offset + k * bhs;
        assert(p == bucket_header_pos(h, bl, k as int));
        let n = read_i32(bytes, p, o);
        let eo: u64 = match bl {
            BucketLayout::All => read_u32(bytes, p + 4, o) as u64,
            BucketLayout::Dsr => {
                if !OneU32::matches(bytes, p + 4, o) {
                    assert(!bucket_ok(bytes@, h, bl, el, k as int));
                    return None;
                }
                read_u64(bytes, p + 8, o)
            },
        };
        assert(n == bucket_entry_count(bytes@, h, bl, k as int));
        assert(eo == bucket_entry_offset(bytes@, h, bl, k as int));
        if n < 0 {
            assert(!bucket_ok(bytes@, h, bl, el, k as int));
            return None;
        }
        if !fits(len, eo, n as u64, es) {
            assert(!bucket_ok(bytes@, h, bl, el, k as int));
            return None;
        }
        let eo = eo as usize;
        let n = n as usize;
        let mut entries: Vec<FileEntry> = Vec::new();
        let mut t: usize = 0;
        while t < n
            invariant
                len == bytes@.len(),
                h == *header,
                o == h.order,
                es == entry_size(el),
                n == bucket_entry_count(bytes@, h, bl, k as int),
                eo == bucket_entry_offset(bytes@, h, bl, k as int),
                slice_fits(len as int, eo as int, n as int, es as int),
                k < count,
                count == h.spec_bucket_count(),
                sb == spec_buckets(bytes@, h, bl, el),
                t <= n,
                entries@ =~= sb[k as int].take(t as int),
                sb[k as int] == spec_bucket(bytes@, h, bl, el, k as int),
                forall|u: int|
                    0 <= u < t ==> #[trigger] entry_wellformed(
                        bytes@,
                        eo + u * entry_size(el),
                        el,
                        o,
                    ),
            decreases n - t,
        {
            proof {
                assert(t * es + es <= n * es) by (nonlinear_arith)
                    requires
                        t < n,
                        es > 0,
                ;
            }
            let q = eo + t * es;
            match FileEntry::read(bytes, q, el, o) {
                None => {
                    assert(!entry_wellformed(bytes@, eo + t * entry_size(el), el, o));
                    assert(!bucket_ok(bytes@, h, bl, el, k as int));
                    return None;
                },
                Some(e) => {
                    entries.push(e);
                },
            }
            t += 1;
        }
        assert(bucket_ok(bytes@, h, bl, el, k as int));
        assert(entries@ =~= sb[k as int]);
        buckets.push(entries);
        k += 1;
    }
    assert(view_buckets(buckets@) =~= sb);
    Some(buckets)
}

/// All entries of all buckets, in bucket order.
pub fn flatten_buckets(buckets: &Vec<Vec<FileEntry>>) -> (r: Vec<FileEntry>)
    ensures
        r@ == view_buckets(buckets@).flatten_alt(),
{
    let mut out: Vec<FileEntry> = Vec::new();
    let mut k: usize = 0;
    while k < buckets.len()
        invariant
            k <= buckets@.len(),
            out@ == view_buckets(buckets@).take(k as int).flatten_alt(),
        decreases buckets@.len() - k,
    {
        let ghost before = out@;
        let bucket = &buckets[k];
        let mut t: usize = 0;
        while t < bucket.len()
            invariant
                t <= bucket@.len(),
                bucket == buckets@[k as int],
                out@ == before + bucket@.take(t as int),
            decreases bucket@.len() - t,
        {
            out.push(bucket[t]);
            t += 1;
            assert(before + bucket@.take(t as int) =~= (before + bucket@.take(t - 1)).push(
                bucket@[t - 1],
            ));
        }
        let ghost vb = view_buckets(buckets@);
        assert(vb.take(k + 1).drop_last() =~= vb.take(k as int));
        assert(bucket@.take(t as int) =~= bucket@);
        k += 1;
    }
    assert(view_buckets(buckets@).take(k as int) =~= view_buckets(buckets@));
    out
}

/// Every entry is consistent with the header and at most one has offset zero.
fn validate_entries(entries: &Vec<FileEntry>, header: &Header) -> (r: bool)
    ensures
        r == entries_valid(entries@, *header),
{
    let mut has_offset_0 = false;
    let mut i: usize = 0;
    while i < entries.len()
        invariant
            i <= entries@.len(),
            forall|j: int| 0 <= j < i ==> #[trigger] entry_valid(entries@[j], *header),
            at_most_one_zero_offset(entries@.take(i as int)),
            has_offset_0 <==> exists|j: int| 0 <= j < i && #[trigger] entries@[j].file_offset == 0,
        decreases entries@.len() - i,
    {
        let e = entries[i];
        let is_offset_0 = e.file_offset == 0;
        if is_offset_0 && has_offset_0 {
            let ghost j = choose|j: int| 0 <= j < i && #[trigger] entries@[j].file_offset == 0;
            assert(!(entries@[j].file_offset == 0 && entries@[i as int].file_offset == 0) ==> false);
            return false;
        }
        has_offset_0 = has_offset_0 || is_offset_0;
        if !e.is_valid(header) {
            return false;
        }
        i += 1;
        assert forall|a: int, b: int|
            0 <= a < b < entries@.take(i as int).len() implies !(
            #[trigger] entries@.take(i as int)[a].file_offset == 0
                && #[trigger] entries@.take(i as int)[b].file_offset == 0) by {
            if b < i - 1 {
                assert(entries@.take(i - 1)[a] == entries@[a]);
                assert(entries@.take(i - 1)[b] == entries@[b]);
            }
        }
    }
    assert(entries@.take(i as int) =~= entries@);
    true
}

/// Reads the encryption record at `off`.
fn read_encryption(bytes: &[u8], off: u64, o: ByteOrder) -> (r: Option<Encryption>)
    ensures
        r is Some <==> encryption_ok(bytes@, off as int, o),
        r matches Some(e) ==> e@ == spec_encryption(bytes@, off as int, o),
{
    let len = bytes.len();
    if off > len as u64 {
        return None;
    }
    let off = off as usize;
    if len - off < 20 {
        return None;
    }
    let n = read_i32(bytes, off + 16, o);
    if n < 0 {
        return None;
    }
    if !fits(len, (off + 20) as u64, n as u64, 16) {
        return None;
    }
    let mut key: Vec<u8> = Vec::new();
    let mut i: usize = 0;
    while i < 16
        invariant
            i <= 16,
            off + 20 <= len,
            len == bytes@.len(),
            key@ =~= bytes@.subrange(off as int, off + i),
        decreases 16 - i,
    {
        key.push(bytes[off + i]);
        i += 1;
    }
    let ghost ev = spec_encryption(bytes@, off as int, o);
    let n = n as usize;
    let mut ranges: Vec<EncryptionRange> = Vec::new();
    let mut k: usize = 0;
    while k < n
        invariant
            k <= n,
            n == ev.range_count,
            len == bytes@.len(),
            ev == spec_encryption(bytes@, off as int, o),
            n as int == spec_i32(bytes@, off + 16, o),
            off + 20 + n * 16 <= len,
            ranges@ =~= ev.ranges.take(k as int),
        decreases n - k,
    {
        proof {
            assert(k * 16 + 16 <= n * 16) by (nonlinear_arith)
                requires
                    k < n,
            ;
        }
        let p = off + 20 + k * 16;
        let r = EncryptionRange { start_offset: read_u64(bytes, p, o), end_offset: read_u64(bytes, p + 8, o) };
        ranges.push(r);
        k += 1;
    }
    assert(ranges@ =~= ev.ranges);
    assert(key@ =~= ev.key);
    Some(Encryption { key, range_count: n as i32, ranges })
}

pub open spec fn view_encryptions(v: Seq<Option<Encryption>>) -> Seq<Option<EncryptionView>> {
    Seq::new(
        v.len(),
        |i: int|
            match v[i] {
                Some(e) => Some(e@),
                None => None,
            },
    )
}

/// Reads the encryption record of every entry that has one.
fn try_ref_encryption(bytes: &[u8], entries: &Vec<FileEntry>, o: ByteOrder) -> (r: Option<
    Vec<Option<Encryption>>,
>)
    ensures
        r is Some <==> encryptions_ok(bytes@, entries@, o),
        r matches Some(v) ==> view_encryptions(v@) == spec_encryptions(bytes@, entries@, o),
{
    let mut out: Vec<Option<Encryption>> = Vec::new();
    let mut i: usize = 0;
    while i < entries.len()
        invariant
            i <= entries@.len(),
            out@.len() == i,
            forall|j: int|
                0 <= j < i ==> #[trigger] entries@[j].encryption_offset == 0 || encryption_ok(
                    bytes@,
                    entries@[j].encryption_offset as int,
                    o,
                ),
            forall|j: int|
                0 <= j < i ==> #[trigger] view_encryptions(out@)[j] == spec_encryptions(
                    bytes@,
                    entries@,
                    o,
                )[j],
        decreases entries@.len() - i,
    {
        let ghost old_out = out@;
        let eo = entries[i].encryption_offset;
        if eo == 0 {
            out.push(None);
            assert(view_encryptions(out@)[i as int] == spec_encryptions(bytes@, entries@, o)[i as int]);
        } else {
            match read_encryption(bytes, eo, o) {
                Some(e) => {
                    out.push(Some(e));
                    assert(view_encryptions(out@)[i as int] == spec_encryptions(bytes@, entries@, o)[i as int]);
                },
                None => {
                    assert(!(entries@[i as int].encryption_offset == 0 || encryption_ok(
                        bytes@,
                        entries@[i as int].encryption_offset as int,
                        o,
                    )));
                    return None;
                },
            }
        }
        i += 1;
        assert forall|j: int| 0 <= j < i implies #[trigger] view_encryptions(out@)[j]
            == spec_encryptions(bytes@, entries@, o)[j] by {
            if j < i - 1 {
                assert(out@[j] == old_out[j]);
                assert(view_encryptions(out@)[j] == view_encryptions(old_out)[j]);
            }
        }
    }
    assert(view_encryptions(out@) =~= spec_encryptions(bytes@, entries@, o));
    Some(out)
}

pub open spec fn view_layout(
    r: Result<(Vec<Vec<FileEntry>>, Vec<Option<Encryption>>), TryRefFileError>,
) -> Result<(Seq<Seq<FileEntry>>, Seq<Option<EncryptionView>>), TryRefFileError> {
    match r {
        Ok((bs, es)) => Ok((view_buckets(bs@), view_encryptions(es@))),
        Err(e) => Err(e),
    }
}

/// Reads the buckets and encryption records in one layout.
fn try_ref_layout(bytes: &[u8], header: &Header, bl: BucketLayout, el: EntryLayout) -> (r: Result<
    (Vec<Vec<FileEntry>>, Vec<Option<Encryption>>),
    TryRefFileError,
>)
    ensures
        view_layout(r) == spec_try_layout(bytes@, *header, bl, el),
{
    let buckets = match try_ref_bucket_structure(bytes, header, bl, el) {
        Some(b) => b,
        None => return Err(TryRefFileError::Bucket),
    };
    let flat = flatten_buckets(&buckets);
    if !validate_entries(&flat, header) {
        return Err(TryRefFileError::Bucket);
    }
    match try_ref_encryption(bytes, &flat, header.order) {
        Some(encryption) => Ok((buckets, encryption)),
        None => Err(TryRefFileError::Encryption),
    }
}

/// A parsed BHD5 index: its format, buckets of file entries, one encryption
/// record per entry (in bucket order) and the optional salt string.
#[derive(Debug)]
pub struct File {
    pub format: Format,
    pub order: ByteOrder,
    pub buckets: Vec<Vec<FileEntry>>,
    pub encryption: Vec<Option<Encryption>>,
    pub salt: Option<Vec<u8>>,
}

pub ghost struct FileView {
    pub format: Format,
    pub order: ByteOrder,
    pub buckets: Seq<Seq<FileEntry>>,
    pub encryption: Seq<Option<EncryptionView>>,
    pub salt: Option<Seq<u8>>,
}

impl View for File {
    type V = FileView;

    open spec fn view(&self) -> FileView {
        FileView {
            format: self.format,
            order: self.order,
            buckets: view_buckets(self.buckets@),
            encryption: view_encryptions(self.encryption@),
            salt: match self.salt {
                Some(s) => Some(s@),
                None => None,
            },
        }
    }
}

pub open spec fn file_view_from(
    format: Format,
    order: ByteOrder,
    layout: (Seq<Seq<FileEntry>>, Seq<Option<EncryptionView>>),
    salt: Option<Seq<u8>>,
) -> FileView {
    FileView { format, order, buckets: layout.0, encryption: layout.1, salt }
}

/// The salt string of `len` bytes after the header, when the bytes hold it.
pub open spec fn spec_salt(b: Seq<u8>, len: int) -> Option<Seq<u8>> {
    if SALT_OFFSET + len <= b.len() {
        Some(b.subrange(SALT_OFFSET as int, SALT_OFFSET + len))
    } else {
        None
    }
}

/// What the archive index in `b` is, read in byte order `order`.
///
/// Without a salt, the DSR format (zero 32-bit bucket offset) has 16-byte
/// bucket headers, and the Dark Souls format 8-byte ones; both use 16-byte
/// entries. With a salt, the Dark Souls 3, Dark Souls 2 and Elden Ring
/// layouts are tried in that order, and the first that reads wins.
pub open spec fn spec_file(b: Seq<u8>, order: ByteOrder) -> Result<FileView, TryRefFileError> {
    if !header_valid(b, order) {
        Err(
            TryRefFileError::Header(
                if b.len() < BHD5_HEADER_LEN {
                    TryCastError::Size
                } else {
                    TryCastError::Validity
                },
            ),
        )
    } else {
        let h = spec_header(b, order);
        match h.spec_salt_len() {
            Some(sl) => {
                let salt = spec_salt(b, sl);
                match spec_try_layout(b, h, BucketLayout::All, EntryLayout::DarkSouls3) {
                    Ok(l) => Ok(file_view_from(Format::DarkSouls3, order, l, salt)),
                    Err(_) => match spec_try_layout(
                        b,
                        h,
                        BucketLayout::All,
                        EntryLayout::DarkSouls2,
                    ) {
                        Ok(l) => Ok(file_view_from(Format::DarkSouls2, order, l, salt)),
                        Err(_) => match spec_try_layout(
                            b,
                            h,
                            BucketLayout::All,
                            EntryLayout::EldenRing,
                        ) {
                            Ok(l) => Ok(file_view_from(Format::EldenRing, order, l, salt)),
                            Err(e) => Err(e),
                        },
                    },
                }
            },
            None => {
                if h.spec_is_dsr_format() {
                    match spec_try_layout(b, h, BucketLayout::Dsr, EntryLayout::DarkSouls) {
                        Ok(l) => Ok(file_view_from(Format::DarkSoulsRemastered, order, l, None)),
                        Err(e) => Err(e),
                    }
                } else {
                    match spec_try_layout(b, h, BucketLayout::All, EntryLayout::DarkSouls) {
                        Ok(l) => Ok(file_view_from(Format::DarkSouls, order, l, None)),
                        Err(e) => Err(e),
                    }
                }
            },
        }
    }
}

pub open spec fn view_file_result(r: Result<File, TryRefFileError>) -> Result<
    FileView,
    TryRefFileError,
> {
    match r {
        Ok(f) => Ok(f@),
        Err(e) => Err(e),
    }
}

fn salt_bytes(bytes: &[u8], len: usize) -> (r: Option<Vec<u8>>)
    ensures
        match r {
            Some(v) => spec_salt(bytes@, len as int) == Some(v@),
            None => spec_salt(bytes@, len as int) is None,
        },
{
    if len > bytes.len() || bytes.len() - len < SALT_OFFSET {
        return None;
    }
    let n = bytes.len();
    let mut out: Vec<u8> = Vec::new();
    let mut i: usize = 0;
    while i < len
        invariant
            i <= len,
            n == bytes@.len(),
            SALT_OFFSET + len <= bytes@.len(),
            out@ =~= bytes@.subrange(SALT_OFFSET as int, SALT_OFFSET + i),
        decreases len - i,
    {
        out.push(bytes[SALT_OFFSET + i]);
        i += 1;
    }
    Some(out)
}

impl File {
    fn from_layout(
        format: Format,
        order: ByteOrder,
        r: Result<(Vec<Vec<FileEntry>>, Vec<Option<Encryption>>), TryRefFileError>,
        salt: Option<Vec<u8>>,
    ) -> (f: Result<File, TryRefFileError>)
        ensures
            view_file_result(f) == match view_layout(r) {
                Ok(l) => Ok(
                    file_view_from(
                        format,
                        order,
                        l,
                        match salt {
                            Some(s) => Some(s@),
                            None => None,
                        },
                    ),
                ),
                Err(e) => Err::<FileView, TryRefFileError>(e),
            },
    {
        match r {
            Ok((buckets, encryption)) => Ok(File { format, order, buckets, encryption, salt }),
            Err(e) => Err(e),
        }
    }

    /// Reads the archive index in `bytes` in byte order `order`.
    pub fn try_ref_from_bytes(bytes: &[u8], order: ByteOrder) -> (r: Result<File, TryRefFileError>)
        ensures
            view_file_result(r) == spec_file(bytes@, order),
    {
        let header = match Header::try_ref_from_prefix(bytes, order) {
            Ok(h) => h,
            Err(e) => return Err(TryRefFileError::Header(e)),
        };
        match header.salt_len() {
            Some(salt_len) => {
                let res_ds3 = try_ref_layout(
                    bytes,
                    &header,
                    BucketLayout::All,
                    EntryLayout::DarkSouls3,
                );
                if res_ds3.is_ok() {
                    return File::from_layout(
                        Format::DarkSouls3,
                        order,
                        res_ds3,
                        salt_bytes(bytes, salt_len),
                    );
                }
                let res_ds2 = try_ref_layout(
                    bytes,
                    &header,
                    BucketLayout::All,
                    EntryLayout::DarkSouls2,
                );
                if res_ds2.is_ok() {
                    return File::from_layout(
                        Format::DarkSouls2,
                        order,
                        res_ds2,
                        salt_bytes(bytes, salt_len),
                    );
                }
                let res_er = try_ref_layout(
                    bytes,
                    &header,
                    BucketLayout::All,
                    EntryLayout::EldenRing,
                );
                File::from_layout(Format::EldenRing, order, res_er, salt_bytes(bytes, salt_len))
            },
            None => {
                if header.is_dsr_format() {
                    let res = try_ref_layout(bytes, &header, BucketLayout::Dsr, EntryLayout::DarkSouls);
                    File::from_layout(Format::DarkSoulsRemastered, order, res, None)
                } else {
                    let res = try_ref_layout(bytes, &header, BucketLayout::All, EntryLayout::DarkSouls);
                    File::from_layout(Format::DarkSouls, order, res, None)
                }
            },
        }
    }
}

} // verus!
