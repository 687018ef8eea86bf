use fsvfs::bhd5::byte_order::ByteOrder;
use fsvfs::bhd5::format::Header;
use fsvfs::bhd5::strip_bhd_extension;

#[test]
fn strip_good_bhd_extension() {
    assert_eq!(strip_bhd_extension("data1.bhd"), Some("data1"));
    assert_eq!(strip_bhd_extension("data1.bhd5"), Some("data1"));
    assert_eq!(strip_bhd_extension("DATA1.BHD"), Some("DATA1"));
    assert_eq!(strip_bhd_extension("DATA1.BHD5"), Some("DATA1"));
}

#[test]
fn strip_bad_bhd_extension() {
    assert_eq!(strip_bhd_extension("data1.bdt"), None);
    assert_eq!(strip_bhd_extension("data1.bdt5"), None);
    assert_eq!(strip_bhd_extension("data1.xyzbdt"), None);
    assert_eq!(strip_bhd_extension("data1.xyzbdt5"), None);
}

fn test_bhd_header(bytes: &[u8], bucket_count: usize, bucket_offset: u64, salt_len: Option<usize>) {
    assert!(Header::try_ref_from_prefix(bytes, ByteOrder::Big).is_err());
    let header = Header::try_ref_from_prefix(bytes, ByteOrder::Little).unwrap();

    assert!(!header.is_dsr_format());
    assert_eq!(header.bucket_count(), bucket_count);
    assert_eq!(header.bucket_offset(), bucket_offset);
    assert_eq!(header.salt_len(), salt_len);
}

#[test]
fn ds1_bhd_header() {
    test_bhd_header(
        &[
            0x42, 0x48, 0x44, 0x35, 0xFF, 0x00, 0x00, 0x00, 0x01, 0x00, 0x00, 0x00, 0x50, 0x02,
            0x00, 0x00, 0x05, 0x00, 0x00, 0x00, 0x18, 0x00, 0x00, 0x00, 0x06, 0x00, 0x00, 0x00,
            0x40, 0x00, 0x00, 0x00, 0x08, 0x00, 0x00, 0x00, 0xA0, 0x00, 0x00, 0x00,
        ],
        5,
        24,
        None,
    );
}

#[test]
fn ds3_bhd_header() {
    test_bhd_header(
        &[
            0x42, 0x48, 0x44, 0x35, 0xFF, 0x01, 0x00, 0x00, 0x01, 0x00, 0x00, 0x00, 0xA5, 0x9F,
            0x01, 0x00, 0x67, 0x00, 0x00, 0x00, 0x25, 0x00, 0x00, 0x00, 0x09, 0x00, 0x00, 0x00,
            0x46, 0x44, 0x50, 0x5F, 0x70, 0x61, 0x72, 0x74, 0x73,
        ],
        103,
        37,
        Some(9),
    );
}

#[test]
fn er_bhd_header() {
    test_bhd_header(
        &[
            0x42, 0x48, 0x44, 0x35, 0xFF, 0x01, 0x00, 0x00, 0x01, 0x00, 0x00, 0x00, 0x5A, 0xB2,
            0x05, 0x00, 0xEF, 0x00, 0x00, 0x00, 0x22, 0x00, 0x00, 0x00, 0x06, 0x00, 0x00, 0x00,
            0x47, 0x52, 0x5F, 0x63, 0x68, 0x72, 0x08, 0x00, 0x00, 0x00, 0x9A, 0x07,
        ],
        239,
        34,
        Some(6),
    );
}
