//! The decisions of a read from a mounted archive: which file a node
//! holds, which bytes of it a request covers, which part of each chunk
//! read from the BDT is handed out, and how much of a chunk is decrypted.

use vstd::prelude::*;

use crate::encryption::BLOCK_SIZE;
use crate::files::DvdbndFile;
use crate::filesystem::{Config, EntryKind, Rofs, RofsError};

verus! {

/// The bytes of a file that a read covers: `len` bytes from `start` within
/// the file, `data_start` within the BDT.
#[derive(Clone, Copy, Debug, PartialEq, Eq, Structural)]
pub struct ReadRange {
    pub data_start: u64,
    pub start: u32,
    pub len: u32,
}

/// The length of a file as read: its unpadded length, or its length when
/// that is not given.
pub open spec fn read_len(file: DvdbndFile) -> u32 {
    if file.unpadded_len == 0 {
        file.len
    } else {
        file.unpadded_len
    }
}

/// The file at inode `inode`: `IsDir` for a directory, `NotFound` when
/// there is no such node.
pub fn file_for_read<C: Config>(fs: &Rofs<DvdbndFile, C>, inode: u64) -> (r: Result<DvdbndFile, RofsError>)
    requires
        fs.wf(),
    ensures
        ({
            let i = inode.wrapping_sub(C::root_inode()) as usize as int;
            if i >= fs.node_count() {
                r == Err::<DvdbndFile, RofsError>(RofsError::NotFound)
            } else {
                match fs.node_data(i) {
                    Some(d) => d < fs.files().len() && r == Ok::<DvdbndFile, RofsError>(
                        fs.files()[d as int],
                    ),
                    None => r == Err::<DvdbndFile, RofsError>(RofsError::IsDir),
                }
            }
        }),
{
    match fs.entry(inode) {
        Ok(e) => match e.kind {
            EntryKind::File(f) => Ok(*f),
            EntryKind::Dir(_) => Err(RofsError::IsDir),
        },
        Err(e) => Err(e),
    }
}

/// The part of `file` that a read of `len` bytes at `file_offset` covers,
/// both cut to the file's length.
pub fn read_range(file: &DvdbndFile, file_offset: u64, len: u32) -> (r: ReadRange)
    requires
        file.data_offset + read_len(*file) <= u64::MAX,
    ensures
        r.start == if file_offset < read_len(*file) {
            file_offset as u32
        } else {
            read_len(*file)
        },
        r.len == if len < read_len(*file) - r.start {
            len
        } else {
            (read_len(*file) - r.start) as u32
        },
        r.data_start == file.data_offset + r.start,
        r.start + r.len <= read_len(*file),
{
    let file_len = file.unpadded_len();
    let start = if file_offset < file_len as u64 {
        file_offset as u32
    } else {
        file_len
    };
    let rest = file_len - start;
    let len = if len < rest {
        len
    } else {
        rest
    };
    ReadRange { data_start: file.data_offset + start as u64, start, len }
}

/// Of a chunk of `chunk_len` bytes at `chunk_offset` within the file, the
/// offset and the number of bytes before `end`; `None` when the offset does
/// not fit a `u32` or no byte lies before `end`.
pub fn visible_part(chunk_offset: i64, chunk_len: usize, end: u32) -> (r: Option<(u32, usize)>)
    requires
        0 <= chunk_offset <= u32::MAX ==> chunk_offset + chunk_len <= u32::MAX,
    ensures
        ({
            let chunk_end = chunk_offset + chunk_len;
            let stop = if chunk_end < end {
                chunk_end
            } else {
                end as int
            };
            if chunk_offset < 0 || chunk_offset > u32::MAX || stop <= chunk_offset {
                r is None
            } else {
                r == Some((chunk_offset as u32, (stop - chunk_offset) as usize))
            }
        }),
{
    if chunk_offset < 0 || chunk_offset > 0xffff_ffff {
        return None;
    }
    let offset = chunk_offset as u32;
    let chunk_end = offset + chunk_len as u32;
    let stop = if chunk_end < end {
        chunk_end
    } else {
        end
    };
    if stop <= offset {
        None
    } else {
        Some((offset, (stop - offset) as usize))
    }
}

/// How much of a chunk of `chunk_len` bytes at `chunk_offset` to decrypt
/// for a read of `[start, end)`: `None` for a chunk that does not start in
/// that range; else the whole chunk, or, for one that reaches `end`, the
/// bytes before `end` and a block's worth more, at most the whole chunk.
pub fn decrypt_window(chunk_offset: i64, chunk_len: usize, start: u32, end: u32) -> (r: Option<usize>)
    requires
        start <= chunk_offset < end ==> chunk_offset + chunk_len <= u32::MAX,
    ensures
        ({
            let chunk_end = chunk_offset + chunk_len;
            if chunk_offset < start || chunk_offset >= end {
                r is None
            } else if chunk_end < end {
                r == Some(chunk_len)
            } else {
                let kept = chunk_len - (chunk_end - end);
                r == Some(
                    if kept + BLOCK_SIZE - 1 < chunk_len {
                        (kept + BLOCK_SIZE - 1) as usize
                    } else {
                        chunk_len
                    },
                )
            }
        }),
{
    if chunk_offset < start as i64 || chunk_offset >= end as i64 {
        return None;
    }
    let chunk_len32 = chunk_len as u32;
    let chunk_end = chunk_offset as u32 + chunk_len32;
    if chunk_end < end {
        return Some(chunk_len);
    }
    let overread = chunk_end - end;
    let kept = chunk_len32 - overread;
    let want = kept as u64 + (BLOCK_SIZE - 1) as u64;
    if want < chunk_len as u64 {
        Some(want as usize)
    } else {
        Some(chunk_len)
    }
}


/// The length of the chunks a read is split into.
pub const CHUNK_LEN: u64 = 32768;

/// The chunks, as (position, length), that cover `[start, end)`: one every
/// `CHUNK_LEN` bytes from `start`, the last one cut at `end`.
pub open spec fn body_chunks(start: int, end: int) -> Seq<(u64, usize)>
    decreases (if end > start {
        end - start
    } else {
        0
    }),
{
    if start >= end {
        Seq::empty()
    } else {
        let len = if end - start < CHUNK_LEN {
            end - start
        } else {
            CHUNK_LEN as int
        };
        seq![(start as u64, len as usize)] + body_chunks(start + CHUNK_LEN, end)
    }
}

/// The chunks of a read of `len` bytes at `start` within a file at
/// `[file_start, file_start + file_len)`: those of [`body_chunks`].
pub fn read_chunks(start: u64, len: u32, file_start: u64, file_len: u32) -> (r: Vec<(u64, usize)>)
    requires
        file_start <= start,
        start + len <= file_start + file_len,
        file_start + file_len + CHUNK_LEN <= u64::MAX,
    ensures
        r@ == body_chunks(start as int, start + len),
{
    let end = start + len as u64;
    let mut out: Vec<(u64, usize)> = Vec::new();
    let mut pos = start;
    proof {
        assert(out@ + body_chunks(pos as int, end as int) =~= body_chunks(start as int, end as int));
    }
    while pos < end
        invariant
            start <= pos,
            pos <= end + CHUNK_LEN,
            end + CHUNK_LEN <= u64::MAX,
            end == start + len,
            out@ + body_chunks(pos as int, end as int) == body_chunks(start as int, end as int),
        decreases end + CHUNK_LEN - pos,
    {
        let left = end - pos;
        let n = if left < CHUNK_LEN {
            left
        } else {
            CHUNK_LEN
        };
        let ghost before = out@;
        out.push((pos, n as usize));
        proof {
            assert(body_chunks(pos as int, end as int) == seq![(pos, n as usize)] + body_chunks(
                pos + CHUNK_LEN,
                end as int,
            ));
            assert(out@ + body_chunks(pos + CHUNK_LEN, end as int) =~= before + body_chunks(
                pos as int,
                end as int,
            ));
        }
        pos = pos + CHUNK_LEN;
    }
    proof {
        assert(body_chunks(pos as int, end as int) =~= Seq::<(u64, usize)>::empty());
        assert(out@ =~= out@ + Seq::<(u64, usize)>::empty());
    }
    out
}

/// The chunks of a read of `len` bytes at `start` with the bytes around it
/// that decryption needs: up to `CHUNK_LEN` bytes before `start` (not before
/// the file), the chunks of [`body_chunks`], and up to `CHUNK_LEN` bytes
/// after the end (not past the file); empty ones left out.
pub fn context_chunks(start: u64, len: u32, file_start: u64, file_len: u32) -> (r: Vec<(u64, usize)>)
    requires
        file_start <= start,
        start + len <= file_start + file_len,
        file_start + file_len + CHUNK_LEN <= u64::MAX,
    ensures
        ({
            let end = start + len;
            let file_end = file_start + file_len;
            let head_pos = if start - CHUNK_LEN > file_start {
                start - CHUNK_LEN
            } else {
                file_start as int
            };
            let tail_end = if end + CHUNK_LEN < file_end {
                end + CHUNK_LEN
            } else {
                file_end
            };
            let head = if start - head_pos > 0 {
                seq![(head_pos as u64, (start - head_pos) as usize)]
            } else {
                Seq::empty()
            };
            let tail = if tail_end - end > 0 {
                seq![(end as u64, (tail_end - end) as usize)]
            } else {
                Seq::empty()
            };
            r@ == head + body_chunks(start as int, end) + tail
        }),
{
    let end = start + len as u64;
    let file_end = file_start + file_len as u64;
    let head_pos = if start >= CHUNK_LEN && start - CHUNK_LEN > file_start {
        start - CHUNK_LEN
    } else {
        file_start
    };
    let mut out: Vec<(u64, usize)> = Vec::new();
    if start - head_pos > 0 {
        out.push((head_pos, (start - head_pos) as usize));
    }
    let ghost head = out@;
    let mut body = read_chunks(start, len, file_start, file_len);
    out.append(&mut body);
    let tail_end = if end + CHUNK_LEN < file_end {
        end + CHUNK_LEN
    } else {
        file_end
    };
    let ghost before_tail = out@;
    if tail_end - end > 0 {
        out.push((end, (tail_end - end) as usize));
    }
    proof {
        if tail_end - end > 0 {
            assert(out@ =~= before_tail + seq![(end, (tail_end - end) as usize)]);
        } else {
            assert(out@ =~= before_tail + Seq::<(u64, usize)>::empty());
        }
    }
    out
}

} // verus!
