use aes::cipher::{BlockCipherEncrypt, KeyInit};

use fsvfs::bhd5::format::{Encryption, EncryptionRange, EntryLayout, FileEntry};
use fsvfs::encryption::buffer::{Chunk, Ciphertext, CiphertextBuffer, EncryptionStore};
use fsvfs::encryption::{read_record, store_encryption, DecryptError, EncryptionId, StoreError};

const KEY: [u8; 16] = [
    0x2b, 0x7e, 0x15, 0x16, 0x28, 0xae, 0xd2, 0xa6, 0xab, 0xf7, 0x15, 0x88, 0x09, 0xcf, 0x4f, 0x3c,
];

fn entry(file_offset: u64, file_size: i32) -> FileEntry {
    FileEntry {
        layout: EntryLayout::DarkSouls3,
        path_hash: 0x1234,
        file_size,
        file_offset,
        file_hash_offset: 0,
        encryption_offset: 0,
        unpadded_file_size: 0,
    }
}

fn encryption(ranges: &[(u64, u64)]) -> Encryption {
    Encryption {
        key: KEY.to_vec(),
        range_count: ranges.len() as i32,
        ranges: ranges
            .iter()
            .map(|&(start_offset, end_offset)| EncryptionRange { start_offset, end_offset })
            .collect(),
    }
}

fn encrypt(data: &mut [u8]) {
    let cipher = aes::Aes128::new(&aes::cipher::Key::<aes::Aes128>::from(KEY));
    for chunk in data.chunks_mut(16) {
        let mut block = aes::Block::try_from(&*chunk).unwrap();
        cipher.encrypt_block(&mut block);
        chunk.copy_from_slice(&block);
    }
}

#[test]
fn store_layout_sorted_by_end() {
    let mut out = vec![7u8, 7, 7];
    let id = store_encryption(&entry(100, 64), &encryption(&[(32, 64), (0, 16), (16, 16)]), &mut out)
        .unwrap();
    assert_eq!(id.into_index(), 3);
    let mut expected = vec![7u8, 7, 7, 0];
    expected.extend_from_slice(&KEY);
    expected.extend_from_slice(&[2, 0, 0]);
    expected.extend_from_slice(&[0, 0, 0, 0, 1, 0, 0, 0]);
    expected.extend_from_slice(&[32, 0, 0, 0, 2, 0, 0, 0]);
    assert_eq!(out, expected);

    let (key, ranges) = read_record(&out, 3).unwrap();
    assert_eq!(key, KEY);
    assert_eq!(ranges.len(), 2);
    assert_eq!((ranges[0].start_offset, ranges[0].block_count), (0, 1));
    assert_eq!((ranges[1].start_offset, ranges[1].block_count), (32, 2));
    assert!(read_record(&out, 0).is_none());
}

#[test]
fn store_errors() {
    let mut out = vec![];
    assert_eq!(
        store_encryption(&entry(0, 64), &encryption(&[(16, 0)]), &mut out).err(),
        Some(StoreError::BadRange(16, 0))
    );
    assert_eq!(
        store_encryption(&entry(0, 64), &encryption(&[(0, 15)]), &mut out).err(),
        Some(StoreError::BadRange(0, 15))
    );
    assert_eq!(
        store_encryption(&entry(5, 64), &encryption(&[(64, 80)]), &mut out).err(),
        Some(StoreError::OobRange(64, 80, 5, 64))
    );
    // A range must end within the file, wherever it starts.
    assert_eq!(
        store_encryption(&entry(5, 32), &encryption(&[(0, 48)]), &mut out).err(),
        Some(StoreError::OobRange(0, 48, 5, 32))
    );
    assert!(out.is_empty());
    assert!(EncryptionId::try_from_index(0xffff_ffff).is_none());
}

#[test]
fn decrypt_whole_range() {
    let plain: Vec<u8> = (0u8..48).collect();
    let mut data = plain.clone();
    encrypt(&mut data[..32]);

    let mut store = vec![];
    let id = store_encryption(&entry(0, 48), &encryption(&[(0, 32)]), &mut store).unwrap();

    let mut ct = Ciphertext { body: data, head: [0; 16], tail: [0; 16], file_offset: 0 };
    store.decrypt(id, &mut ct).unwrap();
    assert_eq!(ct.body, plain);

    let bad = EncryptionId::try_from_index(1).unwrap();
    let before = ct.body.clone();
    assert_eq!(store.decrypt(bad, &mut ct), Err(DecryptError::Id(bad)));
    assert_eq!(ct.body, before);
}

#[test]
fn decrypt_partial_last_block_uses_tail() {
    let plain: Vec<u8> = (100u8..132).collect();
    let mut enc = plain.clone();
    encrypt(&mut enc);

    let mut store = vec![];
    let id = store_encryption(&entry(0, 32), &encryption(&[(0, 32)]), &mut store).unwrap();

    let mut tail = [0u8; 16];
    tail[..6].copy_from_slice(&enc[26..32]);
    let mut ct = Ciphertext { body: enc[..26].to_vec(), head: [0; 16], tail, file_offset: 0 };
    store.decrypt(id, &mut ct).unwrap();
    assert_eq!(ct.body, plain[..26].to_vec());
}

#[test]
fn ciphertext_buffer_window() {
    let mut buf = CiphertextBuffer::new();
    assert!(buf.is_empty());
    buf.push(Chunk { data: vec![1; 20], file_offset: 0 });
    assert!(!buf.is_empty());
    assert_eq!(buf.curr().file_offset, 0);
    buf.push(Chunk { data: vec![2; 20], file_offset: 20 });
    assert_eq!(buf.curr().file_offset, 0);

    let ct = Ciphertext::from_buffer(&mut buf);
    assert_eq!(ct.body, vec![1; 20]);
    assert_eq!(ct.head, [0; 16]);
    assert_eq!(ct.tail, [2; 16]);
    ct.restore(&mut buf);
    assert_eq!(buf.curr().data, vec![1; 20]);

    buf.finish();
    assert_eq!(buf.curr().file_offset, 20);
    let ct = Ciphertext::from_buffer(&mut buf);
    assert_eq!(ct.head, [1; 16]);
    assert_eq!(ct.tail, [0; 16]);
    assert_eq!(ct.file_offset, 20);
}

#[test]
fn ciphertext_buffer_keeps_one_chunk_of_lookahead() {
    let mut buf = CiphertextBuffer::default();
    for k in 0..5u8 {
        buf.push(Chunk { data: vec![k; 20], file_offset: 20 * k as i64 });
        let expected = if k == 0 { 0 } else { k - 1 };
        assert_eq!(buf.curr().data, vec![expected; 20]);
    }
    let ct = Ciphertext::from_buffer(&mut buf);
    assert_eq!(ct.body, vec![3; 20]);
    assert_eq!(ct.head, [2; 16]);
    assert_eq!(ct.tail, [4; 16]);
    ct.restore(&mut buf);
    buf.finish();
    assert_eq!(buf.curr().data, vec![4; 20]);
    let ct = Ciphertext::from_buffer(&mut buf);
    assert_eq!(ct.head, [3; 16]);
    assert_eq!(ct.tail, [0; 16]);
}

#[test]
fn windows_decrypt_as_the_whole_file() {
    let plain: Vec<u8> = (0u8..96).collect();
    let mut file = plain.clone();
    encrypt(&mut file[16..48]);
    encrypt(&mut file[64..80]);

    let mut store = vec![];
    let id = store_encryption(&entry(0, 96), &encryption(&[(16, 48), (64, 80)]), &mut store).unwrap();

    for o in [0usize, 16, 32, 48, 64] {
        for len in [1usize, 7, 16, 20, 31, 40] {
            if o + len > 96 {
                continue;
            }
            let mut tail = [0u8; 16];
            for j in 0..16 {
                if o + len + j < 96 {
                    tail[j] = file[o + len + j];
                }
            }
            let mut ct = Ciphertext {
                body: file[o..o + len].to_vec(),
                head: [0; 16],
                tail,
                file_offset: o as u32,
            };
            store.decrypt(id, &mut ct).unwrap();
            assert_eq!(ct.body, plain[o..o + len].to_vec(), "window {o}+{len}");
        }
    }
}
