use fsvfs::keys::{group_pem_paths, key_candidates};

fn found(name: &str, game: &str, path: &str) -> (String, String, String) {
    (name.to_string(), game.to_string(), path.to_string())
}

#[test]
fn key_files_grouped_by_game() {
    let files = vec![
        found("data1", "eldenring_pc", "Key/EldenRing_PC/Data1.pem"),
        found("data1", "darksouls3_pc", "Key/DarkSouls3_PC/Data1.pem"),
        found("data2", "eldenring_pc", "Key/EldenRing_PC/Data2.pem"),
        found("sd", "armoredcore6_pc", "Key/ArmoredCore6_PC/sd.pem"),
    ];
    let groups = group_pem_paths(&files);
    let games: Vec<&str> = groups.iter().map(|g| g.game.as_str()).collect();
    assert_eq!(games, vec!["armoredcore6_pc", "darksouls3_pc", "eldenring_pc"]);
    let er: Vec<(&str, &str)> = groups[2]
        .pems
        .iter()
        .map(|p| (p.name.as_str(), p.path.as_str()))
        .collect();
    assert_eq!(
        er,
        vec![("data1", "Key/EldenRing_PC/Data1.pem"), ("data2", "Key/EldenRing_PC/Data2.pem")]
    );
}

#[test]
fn keys_to_try() {
    let files = vec![
        found("data1", "eldenring_pc", "a"),
        found("data1", "darksouls3_pc", "b"),
        found("data2", "eldenring_pc", "c"),
        found("data1", "eldenring_pc", "d"),
    ];
    let groups = group_pem_paths(&files);
    // A known game narrows the search to its own keys.
    assert_eq!(key_candidates(&groups, Some("eldenring_pc"), "data1"), vec![(1, 0), (1, 2)]);
    // An unknown or missing game tries every game, in order.
    assert_eq!(key_candidates(&groups, Some("sekiro_pc"), "data1"), vec![(0, 0), (1, 0), (1, 2)]);
    assert_eq!(key_candidates(&groups, None, "data2"), vec![(1, 1)]);
    assert_eq!(key_candidates(&groups, None, "data9"), vec![]);
}

#[test]
fn plain_headers_are_recognized() {
    let mut header = vec![
        0x42, 0x48, 0x44, 0x35, 0xFF, 0x00, 0x00, 0x00, 0x01, 0x00, 0x00, 0x00, 0x50, 0x02, 0x00,
        0x00, 0x05, 0x00, 0x00, 0x00, 0x18, 0x00, 0x00, 0x00, 0x06, 0x00, 0x00, 0x00, 0x40, 0x00,
        0x00, 0x00,
    ];
    assert!(fsvfs::keys::header_is_valid(None, header.clone()));
    assert!(!fsvfs::keys::header_is_valid(None, header[..31].to_vec()));
    header[0] = b'X';
    assert!(!fsvfs::keys::header_is_valid(None, header));
}
