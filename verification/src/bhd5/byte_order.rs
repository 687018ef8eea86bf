//! Fixed-width integers stored in a BHD5 file's byte order.

use vstd::prelude::*;

verus! {

/// The byte order of a BHD5 file, announced by its byte order mark.
#[derive(Clone, Copy, Debug, PartialEq, Eq, Structural)]
pub enum ByteOrder {
    Little,
    Big,
}

/// The byte order mark of a file in byte order `order`: `0xff` for little
/// endian, `0` for big endian.
pub open spec fn spec_bom(order: ByteOrder) -> u8 {
    match order {
        ByteOrder::Little => 0xffu8,
        ByteOrder::Big => 0u8,
    }
}

/// The unsigned 32-bit value of the four bytes at `off`.
pub open spec fn spec_u32(b: Seq<u8>, off: int, order: ByteOrder) -> int {
    match order {
        ByteOrder::Little => b[off] as int + b[off + 1] as int * 0x100 + b[off + 2] as int * 0x1_0000
            + b[off + 3] as int * 0x100_0000,
        ByteOrder::Big => b[off + 3] as int + b[off + 2] as int * 0x100 + b[off + 1] as int
            * 0x1_0000 + b[off] as int * 0x100_0000,
    }
}

/// The unsigned 64-bit value of the eight bytes at `off`.
pub open spec fn spec_u64(b: Seq<u8>, off: int, order: ByteOrder) -> int {
    match order {
        ByteOrder::Little => spec_u32(b, off, order) + spec_u32(b, off + 4, order)
            * 0x1_0000_0000,
        ByteOrder::Big => spec_u32(b, off, order) * 0x1_0000_0000 + spec_u32(b, off + 4, order),
    }
}

/// The two's complement 32-bit value of the four bytes at `off`.
pub open spec fn spec_i32(b: Seq<u8>, off: int, order: ByteOrder) -> int {
    let v = spec_u32(b, off, order);
    if v < 0x8000_0000 {
        v
    } else {
        v - 0x1_0000_0000
    }
}

pub fn read_u32(b: &[u8], off: usize, order: ByteOrder) -> (r: u32)
    requires
        off + 4 <= b@.len(),
    ensures
        r == spec_u32(b@, off as int, order),
{
    let _len = b.len();
    let (b0, b1, b2, b3) = match order {
        ByteOrder::Little => (b[off], b[off + 1], b[off + 2], b[off + 3]),
        ByteOrder::Big => (b[off + 3], b[off + 2], b[off + 1], b[off]),
    };
    b0 as u32 + b1 as u32 * 0x100 + b2 as u32 * 0x1_0000 + b3 as u32 * 0x100_0000
}

pub fn read_u64(b: &[u8], off: usize, order: ByteOrder) -> (r: u64)
    requires
        off + 8 <= b@.len(),
    ensures
        r == spec_u64(b@, off as int, order),
{
    let _len = b.len();
    let first = read_u32(b, off, order) as u64;
    let second = read_u32(b, off + 4, order) as u64;
    match order {
        ByteOrder::Little => first + second * 0x1_0000_0000,
        ByteOrder::Big => first * 0x1_0000_0000 + second,
    }
}

pub fn read_i32(b: &[u8], off: usize, order: ByteOrder) -> (r: i32)
    requires
        off + 4 <= b@.len(),
    ensures
        r == spec_i32(b@, off as int, order),
{
    let v = read_u32(b, off, order);
    if v < 0x8000_0000 {
        v as i32
    } else {
        ((v - 0x8000_0000) as i32) - 0x7fff_ffff - 1
    }
}

/// The byte order mark at offset 4 of a header.
pub struct Bom;

impl Bom {
    pub fn value(order: ByteOrder) -> (r: u8)
        ensures
            r == spec_bom(order),
    {
        match order {
            ByteOrder::Little => 0xff,
            ByteOrder::Big => 0,
        }
    }
}

/// A 32-bit field that must be zero.
pub struct ZeroU32;

impl ZeroU32 {
    pub fn matches(b: &[u8], off: usize) -> (r: bool)
        requires
            off + 4 <= b@.len(),
        ensures
            r == (spec_u32(b@, off as int, ByteOrder::Little) == 0),
            r == (spec_u32(b@, off as int, ByteOrder::Big) == 0),
    {
        let _len = b.len();
        b[off] == 0 && b[off + 1] == 0 && b[off + 2] == 0 && b[off + 3] == 0
    }
}

/// The 32-bit constant one, little endian: `01 00 00 00`.
pub struct OneU32LE;

/// The 32-bit constant one, big endian: `00 00 00 01`.
pub struct OneU32BE;

/// The 32-bit constant one in a file's byte order.
pub struct OneU32;

impl OneU32LE {
    pub fn matches(b: &[u8], off: usize) -> (r: bool)
        requires
            off + 4 <= b@.len(),
        ensures
            r == (spec_u32(b@, off as int, ByteOrder::Little) == 1),
    {
        let _len = b.len();
        b[off] == 1 && b[off + 1] == 0 && b[off + 2] == 0 && b[off + 3] == 0
    }
}

impl OneU32BE {
    pub fn matches(b: &[u8], off: usize) -> (r: bool)
        requires
            off + 4 <= b@.len(),
        ensures
            r == (spec_u32(b@, off as int, ByteOrder::Big) == 1),
    {
        let _len = b.len();
        b[off] == 0 && b[off + 1] == 0 && b[off + 2] == 0 && b[off + 3] == 1
    }
}

impl OneU32 {
    pub fn matches(b: &[u8], off: usize, order: ByteOrder) -> (r: bool)
        requires
            off + 4 <= b@.len(),
        ensures
            r == (spec_u32(b@, off as int, order) == 1),
    {
        match order {
            ByteOrder::Little => OneU32LE::matches(b, off),
            ByteOrder::Big => OneU32BE::matches(b, off),
        }
    }
}

} // verus!
