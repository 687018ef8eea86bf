use std::collections::HashMap;

use fsvfs::bhd5::format::{Encryption, EncryptionRange, EntryLayout, FileEntry};
use fsvfs::encryption::StoreError;
use fsvfs::files::{build_rofs, hash_file_name_exec, process_files, DvdbndFile};
use fsvfs::filesystem::EntryKind;

fn entry(layout: EntryLayout, path_hash: u64, file_size: i32, unpadded: i32) -> FileEntry {
    FileEntry {
        layout,
        path_hash,
        file_size,
        file_offset: 0x800,
        file_hash_offset: 0,
        encryption_offset: 0,
        unpadded_file_size: unpadded,
    }
}

#[test]
fn hash_names() {
    assert_eq!(hash_file_name_exec("data1", 0x1234_5678), ".data1/12/12345678");
    assert_eq!(hash_file_name_exec("data1", 0xab), ".data1/00/000000ab");
    assert_eq!(
        hash_file_name_exec("data1", 0x0123_4567_89ab_cdef),
        ".data1/01/ 123456789abcdef"
    );
    assert_eq!(
        hash_file_name_exec("data1", 0xf123_4567_89ab_cdef),
        ".data1/f1/f123456789abcdef"
    );
}

#[test]
fn files_named_by_dictionary_or_hash() {
    let buckets = vec![
        vec![entry(EntryLayout::DarkSouls3, 0x1_0000_0005, 64, 50)],
        vec![entry(EntryLayout::EldenRing, 0x1_0000_0005, 32, 0), entry(EntryLayout::DarkSouls3, 7, 16, 0)],
    ];
    let encryption = vec![
        None,
        Some(Encryption {
            key: vec![9; 16],
            range_count: 1,
            ranges: vec![EncryptionRange { start_offset: 0, end_offset: 16 }],
        }),
        None,
    ];
    let mut dict = HashMap::new();
    dict.insert(5u64, "/known/five.bin".to_string());

    let (files, store) = process_files(Some(&dict), &buckets, "data0", 3, &encryption).unwrap();
    assert_eq!(files.len(), 3);
    assert_eq!(files[0].0, "/known/five.bin");
    assert_eq!(files[1].0, ".data0/00/       100000005");
    assert_eq!(files[2].0, ".data0/00/00000007");

    let f: DvdbndFile = files[0].1;
    assert_eq!(f.src_index(), 3);
    assert_eq!(f.data_offset(), 0x800);
    assert_eq!(f.len(), 64);
    assert_eq!(f.unpadded_len(), 50);
    assert!(f.encryption_id().is_none());
    assert_eq!(files[1].1.unpadded_len(), 32);
    assert_eq!(files[1].1.encryption_id().unwrap().into_index(), 0);
    assert_eq!(store.len(), 20 + 8);
}

#[test]
fn files_refused_encryption() {
    let buckets = vec![vec![entry(EntryLayout::DarkSouls3, 1, 16, 0)]];
    let encryption = vec![Some(Encryption {
        key: vec![0; 16],
        range_count: 1,
        ranges: vec![EncryptionRange { start_offset: 0, end_offset: 8 }],
    })];
    assert_eq!(
        process_files(None, &buckets, "d", 0, &encryption).err(),
        Some(StoreError::BadRange(0, 8))
    );
}

fn file_at(src_index: u32, data_offset: u64) -> DvdbndFile {
    DvdbndFile { data_offset, len: 16, unpadded_len: 0, src_index, encryption_id: None }
}

#[test]
fn archives_build_one_filesystem() {
    let first = vec![
        ("/chr/c0000.anibnd".to_string(), file_at(0, 0x10)),
        ("/.data0/00/00000007".to_string(), file_at(0, 0x20)),
    ];
    let second = vec![
        ("/CHR/C0000.ANIBND".to_string(), file_at(1, 0x30)),
        ("/map/m10.msb".to_string(), file_at(1, 0x40)),
    ];
    let fs = build_rofs(vec![first, second]);
    assert_eq!(fs.file_count(), 4);
    let data = |path: &str| match fs.entry(fs.lookup(path).unwrap()).unwrap().kind {
        EntryKind::File(f) => (f.src_index(), f.data_offset()),
        EntryKind::Dir(_) => panic!("not a file"),
    };
    // The first archive's file wins the shared path.
    assert_eq!(data("chr/c0000.anibnd"), (0, 0x10));
    assert_eq!(data("Map\\M10.msb"), (1, 0x40));
    assert_eq!(data(".data0/00/00000007"), (0, 0x20));
}
