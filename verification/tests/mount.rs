use fsvfs::components::DvdbndConfig;
use fsvfs::files::DvdbndFile;
use fsvfs::filesystem::object::RofsObject;
use fsvfs::filesystem::RofsError;
use fsvfs::mount::{
    context_chunks, decrypt_window, file_for_read, read_chunks, read_range, visible_part, ReadRange,
};

fn file(data_offset: u64, len: u32, unpadded_len: u32) -> DvdbndFile {
    DvdbndFile { data_offset, len, unpadded_len, src_index: 0, encryption_id: None }
}

#[test]
fn reads_are_cut_to_the_file() {
    let f = file(0x1000, 100, 90);
    assert_eq!(read_range(&f, 10, 50), ReadRange { data_start: 0x100a, start: 10, len: 50 });
    assert_eq!(read_range(&f, 80, 50), ReadRange { data_start: 0x1050, start: 80, len: 10 });
    assert_eq!(read_range(&f, 200, 5), ReadRange { data_start: 0x105a, start: 90, len: 0 });
    // Without an unpadded length the whole length is read.
    let g = file(0, 100, 0);
    assert_eq!(read_range(&g, 0, 1000), ReadRange { data_start: 0, start: 0, len: 100 });
}

#[test]
fn chunks_are_cut_at_the_end() {
    assert_eq!(visible_part(-1, 10, 100), None);
    assert_eq!(visible_part(0, 10, 5), Some((0, 5)));
    assert_eq!(visible_part(8, 10, 100), Some((8, 10)));
    assert_eq!(visible_part(100, 10, 100), None);
    assert_eq!(visible_part(1 << 33, 10, 100), None);
}

#[test]
fn decryption_windows() {
    assert_eq!(decrypt_window(0, 32, 16, 64), None);
    assert_eq!(decrypt_window(16, 32, 16, 64), Some(32));
    assert_eq!(decrypt_window(48, 32, 16, 64), Some(31));
    assert_eq!(decrypt_window(48, 20, 16, 64), Some(20));
    assert_eq!(decrypt_window(64, 32, 16, 64), None);
}

#[test]
fn files_to_read() {
    let fs = RofsObject::<DvdbndFile, DvdbndConfig>::new(vec![
        ("dir/a.bin".to_string(), file(7, 1, 0)),
    ])
    .into_rofs();
    assert!(matches!(file_for_read(&fs, 1), Err(RofsError::IsDir)));
    assert!(matches!(file_for_read(&fs, 1000), Err(RofsError::NotFound)));
    let inode = fs.lookup("dir/a.bin").unwrap();
    assert_eq!(file_for_read(&fs, inode).unwrap().data_offset(), 7);
}

#[test]
fn reads_in_chunks() {
    assert_eq!(read_chunks(100, 10, 0, 1000), vec![(100, 10)]);
    assert_eq!(read_chunks(0, 70000, 0, 70000), vec![(0, 32768), (32768, 32768), (65536, 4464)]);
    assert_eq!(read_chunks(5, 0, 0, 10), vec![]);
}

#[test]
fn reads_with_context() {
    // The bytes before and after come along, within the file.
    assert_eq!(context_chunks(100, 10, 40, 1000), vec![(40, 60), (100, 10), (110, 930)]);
    assert_eq!(context_chunks(40, 10, 40, 10), vec![(40, 10)]);
    assert_eq!(
        context_chunks(40000, 16, 0, 100000),
        vec![(40000 - 32768, 32768), (40000, 16), (40016, 32768)]
    );
}
