//! The files of a BHD5 archive as the filesystem lists them: their data
//! location in the BDT, their encryption record, and their path, taken from
//! the name dictionary or made up from the path hash.

use std::collections::HashMap;

use vstd::prelude::*;

use crate::bhd5::format::{
    flatten_buckets, view_buckets, view_encryptions, Encryption, EncryptionView, EntryLayout,
    FileEntry,
};
use crate::components::DvdbndConfig;
use crate::encryption::{spec_store, store_encryption, EncryptionId, StoreError};
use crate::filesystem::object::{build_tree, entry_files, entry_paths, names_fit, RofsObject};
use crate::filesystem::tree::{merge_tree, Tree};
use crate::filesystem::Rofs;

verus! {

/// `String::push` appends one character.
pub assume_specification[ String::push ](s: &mut String, c: char)
    ensures
        final(s)@ == old(s)@.push(c),
;

/// `String::push_str` appends a string slice.
pub assume_specification[ String::push_str ](s: &mut String, t: &str)
    ensures
        final(s)@ == old(s)@ + t@,
;

/// Archive paths are separated by `/` or `\\`; the root is inode 1.
impl crate::filesystem::Config for DvdbndConfig {
    open spec fn separator(c: char) -> bool {
        c == '/' || c == '\\'
    }

    open spec fn root_inode() -> u64 {
        1
    }

    fn is_separator(c: char) -> (r: bool) {
        c == '/' || c == '\\'
    }

    fn inode_root() -> (r: u64) {
        1
    }
}

/// A file of a mounted archive.
#[derive(Clone, Copy, Debug)]
pub struct DvdbndFile {
    pub data_offset: u64,
    pub len: u32,
    pub unpadded_len: u32,
    pub src_index: u32,
    pub encryption_id: Option<EncryptionId>,
}

impl DvdbndFile {
    /// The index of the archive the file belongs to.
    pub fn src_index(&self) -> (r: usize)
        ensures
            r == self.src_index,
    {
        self.src_index as usize
    }

    pub fn data_offset(&self) -> (r: u64)
        ensures
            r == self.data_offset,
    {
        self.data_offset
    }

    /// The padded length of the file data.
    pub fn len(&self) -> (r: u32)
        ensures
            r == self.len,
    {
        self.len
    }

    /// The length without padding; the padded length where none was recorded.
    pub fn unpadded_len(&self) -> (r: u32)
        ensures
            r == if self.unpadded_len == 0 {
                self.len
            } else {
                self.unpadded_len
            },
    {
        match self.unpadded_len {
            0 => self.len(),
            len => len,
        }
    }

    pub fn encryption_id(&self) -> (r: Option<EncryptionId>)
        ensures
            r == self.encryption_id,
    {
        self.encryption_id
    }
}

pub open spec fn hex_digit(d: int) -> char {
    if d < 10 {
        ('0' as int + d) as char
    } else {
        ('a' as int + d - 10) as char
    }
}

/// The `n` lowest hexadecimal digits of `v`, most significant first.
pub open spec fn hex_fixed(v: int, n: nat) -> Seq<char>
    decreases n,
{
    if n == 0 {
        Seq::empty()
    } else {
        hex_fixed(v / 16, (n - 1) as nat).push(hex_digit(v % 16))
    }
}

/// The hexadecimal digits of `v` with no leading zero.
pub open spec fn hex_min(v: int) -> Seq<char>
    decreases v,
{
    if v < 16 {
        seq![hex_digit(v)]
    } else {
        hex_min(v / 16).push(hex_digit(v % 16))
    }
}

pub open spec fn spaces(n: int) -> Seq<char> {
    Seq::new(if n > 0 { n as nat } else { 0 }, |i: int| ' ')
}

/// The name of a file the dictionary does not know: `.{bnd}/{hh}/{hash}`,
/// with `hh` the top byte of the hash in two hex digits and the hash in
/// eight hex digits, or, for a hash wider than 32 bits, in hex right-aligned
/// in sixteen columns.
pub open spec fn hash_file_name(bnd: Seq<char>, hash: u64) -> Seq<char> {
    if hash <= u32::MAX {
        seq!['.'] + bnd + seq!['/'] + hex_fixed(hash as int / 0x100_0000, 2) + seq!['/'] + hex_fixed(
            hash as int,
            8,
        )
    } else {
        seq!['.'] + bnd + seq!['/'] + hex_fixed(hash as int / 0x100_0000_0000_0000, 2) + seq!['/']
            + spaces(16 - hex_min(hash as int).len()) + hex_min(hash as int)
    }
}

fn push_hex_digit(s: &mut String, d: u64)
    requires
        d < 16,
    ensures
        final(s)@ == old(s)@.push(hex_digit(d as int)),
{
    let c = if d < 10 {
        ((48 + d) as u8) as char
    } else {
        ((97 + d - 10) as u8) as char
    };
    assert(c == hex_digit(d as int));
    s.push(c);
}

/// Appends the `n` lowest hex digits of `v`.
fn push_hex_fixed(s: &mut String, v: u64, n: u32)
    requires
        n <= 16,
    ensures
        final(s)@ == old(s)@ + hex_fixed(v as int, n as nat),
    decreases n,
{
    if n > 0 {
        push_hex_fixed(s, v / 16, n - 1);
        push_hex_digit(s, v % 16);
    }
}

proof fn lemma_hex_min_len(v: int)
    requires
        v >= 0,
    ensures
        1 <= hex_min(v).len(),
        v >= 16 ==> 2 <= hex_min(v).len(),
    decreases v,
{
    if v >= 16 {
        lemma_hex_min_len(v / 16);
    }
}

/// Appends the hex digits of `v` with no leading zero.
fn push_hex_min(s: &mut String, v: u64)
    ensures
        final(s)@ == old(s)@ + hex_min(v as int),
    decreases v,
{
    if v >= 16 {
        push_hex_min(s, v / 16);
    }
    push_hex_digit(s, v % 16);
    proof {
        if v < 16 {
            assert(v % 16 == v);
        }
    }
}

/// The name given to a file whose path hash is not in the dictionary.
pub fn hash_file_name_exec(bnd_name: &str, hash: u64) -> (r: String)
    ensures
        r@ == hash_file_name(bnd_name@, hash),
{
    let mut s = String::new();
    s.push('.');
    s.push_str(bnd_name);
    s.push('/');
    if hash <= 0xffff_ffff {
        push_hex_fixed(&mut s, hash / 0x100_0000, 2);
        s.push('/');
        push_hex_fixed(&mut s, hash, 8);
    } else {
        push_hex_fixed(&mut s, hash / 0x100_0000_0000_0000, 2);
        s.push('/');
        let mut n: u64 = 1;
        let mut t = hash;
        while n < 16 && t >= 16
            invariant
                1 <= n <= 16,
                hex_min(hash as int).len() == n - 1 + hex_min(t as int).len(),
            decreases t,
        {
            t = t / 16;
            n = n + 1;
        }
        proof {
            lemma_hex_min_len(t as int);
        }
        let ghost base = s@;
        let mut k = n;
        while k < 16
            invariant
                n <= k <= 16,
                s@ == base + spaces(k - n),
            decreases 16 - k,
        {
            s.push(' ');
            k = k + 1;
            assert(s@ =~= base + spaces(k - n));
        }
        assert(spaces(16 - n) =~= spaces(16 - hex_min(hash as int).len()));
        push_hex_min(&mut s, hash);
    }
    s
}


/// The dictionary key of an entry's path hash: all of it in the layouts with
/// 64-bit hashes, its low 32 bits in the others.
pub open spec fn dict_key(e: FileEntry) -> u64 {
    if e.layout == EntryLayout::EldenRing {
        e.path_hash
    } else {
        (e.path_hash % 0x1_0000_0000) as u64
    }
}

/// The path of entry `e` of archive `bnd`.
pub open spec fn file_path(dict: Option<Map<u64, String>>, e: FileEntry, bnd: Seq<char>) -> Seq<char> {
    match dict {
        Some(m) => if m.contains_key(dict_key(e)) {
            m[dict_key(e)]@
        } else {
            hash_file_name(bnd, e.path_hash)
        },
        None => hash_file_name(bnd, e.path_hash),
    }
}

/// The store after the encryption records of the first `n` entries that have
/// one, or the first refusal.
pub open spec fn store_after(
    entries: Seq<FileEntry>,
    encs: Seq<Option<EncryptionView>>,
    n: int,
) -> Result<Seq<u8>, StoreError>
    decreases n,
{
    if n <= 0 {
        Ok(Seq::empty())
    } else {
        match store_after(entries, encs, n - 1) {
            Err(e) => Err(e),
            Ok(s) => match encs[n - 1] {
                None => Ok(s),
                Some(enc) => match spec_store(entries[n - 1], enc, s.len() as int) {
                    Err(e) => Err(e),
                    Ok((_, bytes)) => Ok(s + bytes),
                },
            },
        }
    }
}

/// The listed file of entry `e`, apart from its encryption id.
pub open spec fn file_of(e: FileEntry, src_index: u32, f: DvdbndFile) -> bool {
    &&& f.data_offset == e.file_offset
    &&& f.len == (if e.file_size < 0 {
        0
    } else {
        e.file_size as int
    })
    &&& f.unpadded_len == (if (e.layout == EntryLayout::DarkSouls3 || e.layout
        == EntryLayout::EldenRing) && e.unpadded_file_size > 0 {
        e.unpadded_file_size as int
    } else {
        0
    })
    &&& f.src_index == src_index
}

pub open spec fn keys_ok(encs: Seq<Option<EncryptionView>>) -> bool {
    forall|k: int| 0 <= k < encs.len() ==> (#[trigger] encs[k] matches Some(enc) ==> enc.key.len() == 16)
}

/// Lists the files of one archive: each entry (paired in order with its
/// encryption, the shorter list deciding how many) gets its path and its
/// encryption record, appended to the archive's store.
pub fn process_files(
    dict: Option<&HashMap<u64, String>>,
    buckets: &Vec<Vec<FileEntry>>,
    bnd_name: &str,
    src_index: u32,
    encryption: &Vec<Option<Encryption>>,
) -> (r: Result<(Vec<(String, DvdbndFile)>, Vec<u8>), StoreError>)
    requires
        keys_ok(view_encryptions(encryption@)),
    ensures
        ({
            let entries = view_buckets(buckets@).flatten_alt();
            let encs = view_encryptions(encryption@);
            let n = if entries.len() < encs.len() { entries.len() as int } else { encs.len() as int };
            let d = match dict { Some(m) => Some(m@), None => None::<Map<u64, String>> };
            match store_after(entries, encs, n) {
                Err(e) => r == Err::<(Vec<(String, DvdbndFile)>, Vec<u8>), StoreError>(e),
                Ok(store) => r matches Ok((files, out)) && out@ == store && files@.len() == n
                    && forall|k: int| 0 <= k < n ==> {
                        &&& (#[trigger] files@[k]).0@ == file_path(d, entries[k], bnd_name@)
                        &&& file_of(entries[k], src_index, files@[k].1)
                        &&& match encs[k] {
                            None => files@[k].1.encryption_id is None,
                            Some(_) => files@[k].1.encryption_id matches Some(id)
                                && store_after(entries, encs, k) matches Ok(s)
                                && id.spec_index() == s.len(),
                        }
                    },
            }
        }),
{
    broadcast use vstd::std_specs::hash::group_hash_axioms;

    let entries = flatten_buckets(buckets);
    let ghost encs = view_encryptions(encryption@);
    let ghost d = match dict { Some(m) => Some(m@), None => None::<Map<u64, String>> };
    let n = if entries.len() < encryption.len() { entries.len() } else { encryption.len() };
    let mut store: Vec<u8> = Vec::new();
    let mut files: Vec<(String, DvdbndFile)> = Vec::new();
    let mut i: usize = 0;
    while i < n
        invariant
            0 <= i <= n,
            n == (if entries@.len() < encryption@.len() {
                entries@.len()
            } else {
                encryption@.len()
            }),
            encs.len() == encryption@.len(),
            entries@ == view_buckets(buckets@).flatten_alt(),
            encs == view_encryptions(encryption@),
            keys_ok(encs),
            d == match dict { Some(m) => Some(m@), None => None::<Map<u64, String>> },
            store_after(entries@, encs, i as int) == Ok::<Seq<u8>, StoreError>(store@),
            files@.len() == i,
            forall|k: int| 0 <= k < i ==> {
                &&& (#[trigger] files@[k]).0@ == file_path(d, entries@[k], bnd_name@)
                &&& file_of(entries@[k], src_index, files@[k].1)
                &&& match encs[k] {
                    None => files@[k].1.encryption_id is None,
                    Some(_) => files@[k].1.encryption_id matches Some(id)
                        && store_after(entries@, encs, k) matches Ok(s)
                        && id.spec_index() == s.len(),
                }
            },
        decreases n - i,
    {
        let entry = &entries[i];
        let ghost before = store@;
        assert(encs[i as int] == match encryption@[i as int] {
            Some(e) => Some(e@),
            None => None::<EncryptionView>,
        });
        let encryption_id = match &encryption[i] {
            Some(enc) => {
                assert(enc@.key.len() == 16);
                match store_encryption(entry, enc, &mut store) {
                    Ok(id) => Some(id),
                    Err(e) => {
                        proof {
                            assert(store_after(entries@, encs, i as int) == Ok::<Seq<u8>, StoreError>(
                                before,
                            ));
                            assert(encs[i as int] == Some(enc@));
                            assert(store_after(entries@, encs, i as int + 1) == Err::<
                                Seq<u8>,
                                StoreError,
                            >(e));
                            lemma_store_after_err(entries@, encs, i as int + 1, n as int, e);
                            assert(n == (if entries@.len() < encs.len() {
                                entries@.len() as int
                            } else {
                                encs.len() as int
                            }));
                        }
                        return Err(e);
                    },
                }
            },
            None => None,
        };
        let hash = entry.path_hash();
        let key = if entry.u64_hash() {
            hash
        } else {
            hash % 0x1_0000_0000
        };
        let path = match dict {
            Some(m) => match m.get(&key) {
                Some(p) => p.clone(),
                None => hash_file_name_exec(bnd_name, hash),
            },
            None => hash_file_name_exec(bnd_name, hash),
        };
        let file = DvdbndFile {
            data_offset: entry.file_offset(),
            src_index,
            len: entry.file_size(),
            unpadded_len: match entry.unpadded_file_size() {
                Some(n) => n,
                None => 0,
            },
            encryption_id,
        };
        files.push((path, file));
        i = i + 1;
    }
    Ok((files, store))
}

proof fn lemma_store_after_err(
    entries: Seq<FileEntry>,
    encs: Seq<Option<EncryptionView>>,
    i: int,
    n: int,
    e: StoreError,
)
    requires
        0 < i <= n,
        store_after(entries, encs, i) == Err::<Seq<u8>, StoreError>(e),
    ensures
        store_after(entries, encs, n) == Err::<Seq<u8>, StoreError>(e),
    decreases n - i,
{
    if i < n {
        lemma_store_after_err(entries, encs, i + 1, n, e);
    }
}

/// How many files the archives hold in all.
pub open spec fn file_total(archives: Seq<Vec<(String, DvdbndFile)>>) -> int
    decreases archives.len(),
{
    if archives.len() == 0 {
        0
    } else {
        file_total(archives.drop_last()) + archives.last()@.len()
    }
}

/// The tree of several archives: each archive's files in a tree of their
/// own, merged in order, the data indices of each archive following those
/// of the archives before it.
pub open spec fn archives_tree(archives: Seq<Vec<(String, DvdbndFile)>>) -> Tree
    decreases archives.len(),
{
    if archives.len() == 0 {
        Tree::empty()
    } else {
        merge_tree(
            archives_tree(archives.drop_last()),
            build_tree::<DvdbndConfig>(entry_paths(archives.last()@)),
            file_total(archives.drop_last()) as u32,
        )
    }
}

/// The data of all files, archive after archive.
pub open spec fn archives_files(archives: Seq<Vec<(String, DvdbndFile)>>) -> Seq<DvdbndFile>
    decreases archives.len(),
{
    if archives.len() == 0 {
        Seq::empty()
    } else {
        archives_files(archives.drop_last()) + entry_files(archives.last()@)
    }
}

proof fn lemma_total_prefix(archives: Seq<Vec<(String, DvdbndFile)>>, k: int)
    requires
        0 <= k <= archives.len(),
    ensures
        0 <= file_total(archives.take(k)) <= file_total(archives),
    decreases archives.len(),
{
    if k < archives.len() {
        assert(archives.drop_last().take(k) =~= archives.take(k));
        lemma_total_prefix(archives.drop_last(), k);
    } else {
        assert(archives.take(k) =~= archives);
    }
    if archives.len() > 0 {
        lemma_total_prefix(archives.drop_last(), archives.len() - 1);
    }
}

/// The filesystem of the files of several archives (see
/// [`archives_tree`]).
pub fn build_rofs(archives: Vec<Vec<(String, DvdbndFile)>>) -> (r: Rofs<DvdbndFile, DvdbndConfig>)
    requires
        file_total(archives@) <= u32::MAX,
        forall|a: int|
            0 <= a < archives@.len() ==> names_fit::<DvdbndConfig>(
                entry_paths(#[trigger] archives@[a]@),
            ),
    ensures
        r.wf(),
        r.tree() == archives_tree(archives@),
        r.files() == archives_files(archives@),
{
    let ghost all = archives@;
    let mut rest = archives;
    let n = rest.len();
    let mut acc = RofsObject::<DvdbndFile, DvdbndConfig>::empty();
    let mut k: usize = 0;
    proof {
        assert(all.skip(0) =~= all);
        assert(all.take(0) =~= Seq::<Vec<(String, DvdbndFile)>>::empty());
    }
    while rest.len() > 0
        invariant
            k + rest@.len() == all.len(),
            all.len() == n,
            rest@ == all.skip(k as int),
            file_total(all) <= u32::MAX,
            forall|a: int|
                0 <= a < all.len() ==> names_fit::<DvdbndConfig>(entry_paths(#[trigger] all[a]@)),
            acc.wf(),
            acc.tree() == archives_tree(all.take(k as int)),
            acc.files() == archives_files(all.take(k as int)),
            acc.files().len() == file_total(all.take(k as int)),
        decreases rest@.len(),
    {
        let archive = rest.remove(0);
        proof {
            assert(archive == all[k as int]);
            assert(rest@ =~= all.skip(k + 1));
            let t = all.take(k + 1);
            assert(t.drop_last() =~= all.take(k as int));
            assert(t.last() == all[k as int]);
            lemma_total_prefix(all, k + 1);
            assert(archive@.len() <= u32::MAX);
        }
        let obj = RofsObject::<DvdbndFile, DvdbndConfig>::new(archive);
        acc = acc.merge(obj);
        k = k + 1;
    }
    proof {
        assert(all.take(k as int) =~= all);
    }
    acc.into_rofs()
}

} // verus!
