//! BHD5 archive headers: the index of a DVDBND archive.

pub mod byte_order;
pub mod format;
pub mod laws;

use vstd::prelude::*;
use vstd::string::StringSliceAdditionalSpecFns;
use vstd::utf8::*;

use crate::bhd5::byte_order::ByteOrder;
use crate::bhd5::format::{spec_file, File, FileView, TryRefFileError};

verus! {

/// An archive index in whichever byte order it was written.
#[derive(Debug)]
pub enum Bhd5File {
    LE(File),
    BE(File),
}

/// Why an index could be read in neither byte order.
#[derive(Clone, Copy, Debug, PartialEq, Eq, Structural)]
pub struct Bhd5Error {
    pub le: TryRefFileError,
    pub be: TryRefFileError,
}

/// The little endian reading when it succeeds, else the big endian one.
pub open spec fn spec_bhd5_file(b: Seq<u8>) -> Result<(ByteOrder, FileView), Bhd5Error> {
    match spec_file(b, ByteOrder::Little) {
        Ok(v) => Ok((ByteOrder::Little, v)),
        Err(le) => match spec_file(b, ByteOrder::Big) {
            Ok(v) => Ok((ByteOrder::Big, v)),
            Err(be) => Err(Bhd5Error { le, be }),
        },
    }
}

impl Bhd5File {
    pub open spec fn spec_view(&self) -> (ByteOrder, FileView) {
        match self {
            Bhd5File::LE(f) => (ByteOrder::Little, f@),
            Bhd5File::BE(f) => (ByteOrder::Big, f@),
        }
    }

    /// Reads an archive index, trying little endian first.
    pub fn try_ref_from_bytes(bytes: &[u8]) -> (r: Result<Bhd5File, Bhd5Error>)
        ensures
            match r {
                Ok(f) => spec_bhd5_file(bytes@) == Ok::<(ByteOrder, FileView), Bhd5Error>(
                    f.spec_view(),
                ),
                Err(e) => spec_bhd5_file(bytes@) == Err::<(ByteOrder, FileView), Bhd5Error>(e),
            },
    {
        match File::try_ref_from_bytes(bytes, ByteOrder::Little) {
            Ok(le) => Ok(Bhd5File::LE(le)),
            Err(err_le) => match File::try_ref_from_bytes(bytes, ByteOrder::Big) {
                Ok(be) => Ok(Bhd5File::BE(be)),
                Err(err_be) => Err(Bhd5Error { le: err_le, be: err_be }),
            },
        }
    }
}

pub open spec fn spec_ascii_lower(c: u8) -> u8 {
    if 65 <= c && c <= 90 {
        (c + 32) as u8
    } else {
        c
    }
}

pub fn ascii_lower(c: u8) -> (r: u8)
    ensures
        r == spec_ascii_lower(c),
{
    if c >= 65 && c <= 90 {
        c + 32
    } else {
        c
    }
}

/// The name with at most one trailing `5` removed.
pub open spec fn spec_strip_5(b: Seq<u8>) -> Seq<u8> {
    if b.len() > 0 && b.last() == 0x35u8 {
        b.drop_last()
    } else {
        b
    }
}

/// The bytes end in `.bhd`, ignoring ASCII case.
pub open spec fn has_bhd_suffix(b: Seq<u8>) -> bool {
    &&& b.len() >= 4
    &&& b[b.len() - 4] == 0x2eu8
    &&& spec_ascii_lower(b[b.len() - 3]) == 0x62u8
    &&& spec_ascii_lower(b[b.len() - 2]) == 0x68u8
    &&& spec_ascii_lower(b[b.len() - 1]) == 0x64u8
}

/// The archive name of a `.bhd` or `.bhd5` file name (ASCII case ignored):
/// the name without that extension, or `None` for any other name.
pub fn strip_bhd_extension(name: &str) -> (r: Option<&str>)
    ensures
        r is Some <==> has_bhd_suffix(spec_strip_5(name.spec_bytes())),
        r matches Some(p) ==> p.spec_bytes() =~= spec_strip_5(name.spec_bytes()).subrange(
            0,
            spec_strip_5(name.spec_bytes()).len() - 4,
        ),
{
    let bytes = name.as_bytes();
    proof {
        encode_utf8_valid_utf8(name@);
    }
    let mut n = bytes.len();
    if n > 0 && bytes[n - 1] == 0x35 {
        n = n - 1;
    }
    assert(bytes@.subrange(0, n as int) =~= spec_strip_5(name.spec_bytes()));
    if n < 4 {
        return None;
    }
    if bytes[n - 4] != 0x2e || ascii_lower(bytes[n - 3]) != 0x62 || ascii_lower(bytes[n - 2])
        != 0x68 || ascii_lower(bytes[n - 1]) != 0x64 {
        return None;
    }
    proof {
        is_char_boundary_iff_not_is_continuation_byte(name.spec_bytes(), n - 4);
    }
    let (prefix, _) = name.split_at(n - 4);
    Some(prefix)
}

} // verus!
