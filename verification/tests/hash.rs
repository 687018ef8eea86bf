use fsvfs::hash::{mad_hash, mad_hash32, mad_hash64};

const LINES: [&str; 6] = [
    "/chr/c0000.anibnd.dcx",
    "/map/m30_00_00_00/m30_00_00_00_000000.mapbnd.dcx",
    "/PARTS/AM_F_1000.PARTSBND.DCX",
    "\\sound\\fdp_main.fev",
    "",
    "abc",
];

#[test]
fn mad_hash_chunked_matches_plain() {
    for line in LINES {
        let bytes = line.as_bytes();

        let hash32 = mad_hash32(0, bytes);
        assert_eq!(hash32, mad_hash::<4, _>(0, bytes), "{line}");
        assert_eq!(hash32, mad_hash::<8, _>(0, bytes), "{line}");

        let hash64 = mad_hash64(0, bytes);
        assert_eq!(hash64, mad_hash::<4, _>(0, bytes), "{line}");
        assert_eq!(hash64, mad_hash::<8, _>(0, bytes), "{line}");
    }
}

#[test]
fn mad_hash_values() {
    // h = h * p + b over the normalized bytes, wrapping.
    assert_eq!(mad_hash32(0, b""), 0);
    assert_eq!(mad_hash32(0, b"a"), 97);
    assert_eq!(mad_hash32(0, b"ab"), 97 * 37 + 98);
    assert_eq!(mad_hash64(0, b"ab"), 97 * 133 + 98);
    assert_eq!(mad_hash32(5, b"a"), 5 * 37 + 97);
}

#[test]
fn file_names_hash_by_width() {
    assert_eq!(fsvfs::hash::path_name_hash("ab", false), 97 * 37 + 98);
    assert_eq!(fsvfs::hash::path_name_hash("ab", true), 97 * 133 + 98);
    assert_eq!(fsvfs::hash::path_name_hash("", true), 0);
}

#[test]
fn dictionary_lines_by_hash() {
    let m = fsvfs::hash::hash_lines("ab\r\nb\n\nab\nc\r", false);
    assert_eq!(m.len(), 4);
    assert_eq!(m[&(97 * 37 + 98)], "ab");
    assert_eq!(m[&98], "b");
    assert_eq!(m[&0], "");
    assert!(m.values().any(|v| v == "c\r"));
    assert!(fsvfs::hash::hash_lines("", true).is_empty());
}
