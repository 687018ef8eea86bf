use fsvfs::libsais::{Text, TextError};
use fsvfs::trie::divisor::Divisor;
use fsvfs::trie::domain::{add_nibble, compress};
use fsvfs::trie::{CompressedNode, CompressedTrie, TriePath, TrieValue};

#[test]
fn divisor_apply_exact() {
    for (d, n) in [
        (Divisor::_3, 3u64),
        (Divisor::_5, 5),
        (Divisor::_7, 7),
        (Divisor::_11, 11),
        (Divisor::_13, 13),
        (Divisor::_17, 17),
        (Divisor::_16, 16),
    ] {
        for x in [0u64, 1, 2, 3, 7, 11, 33, 77, 100, 1_000_001, 0x1234_5678_9abc, n * 1000] {
            assert_eq!(d.apply(x), (x / n, (x % n) as u8), "{x} / {n}");
        }
    }
    assert_eq!(Divisor::_3.apply(3), (1, 0));
    assert_eq!(Divisor::_3.apply(10), (3, 1));
    assert_eq!(Divisor::_17.apply(100), (5, 15));
    assert_eq!(Divisor::_1.apply(9), (9, 0));
    assert_eq!(Divisor::_8.apply(21), (2, 5));
    assert_eq!(Divisor::_5.apply(10), (2, 0));
    assert!(Divisor::_16.is_power_of_two());
    assert!(!Divisor::_17.is_power_of_two());
}

#[test]
fn trie_path_push_pop() {
    let mut p = TriePath::new();
    p.push(1, Divisor::_3);
    p.push(5, Divisor::_8);
    assert_eq!(p.0, 2 * 8 + 5);
    assert_eq!(p.pop(Divisor::_8), 5);
    assert_eq!(p.pop(Divisor::_3), 1);
    assert!(p.is_empty());
}

#[test]
fn domain_compress() {
    let mut mask = 0u16;
    add_nibble(&mut mask, 3);
    add_nibble(&mut mask, 9);
    add_nibble(&mut mask, 15);
    assert_eq!(compress(mask, 3), Some(0));
    assert_eq!(compress(mask, 9), Some(1));
    assert_eq!(compress(mask, 15), Some(2));
    assert_eq!(compress(mask, 4), None);
}

#[test]
fn trie_lookup_one_level() {
    // Root (even) branches on the high nibble of 'a' (0x6), its only child
    // (odd) holds "ab" and has no further children.
    let trie = CompressedTrie {
        nodes: vec![
            CompressedNode { next_index: 1, child_count: 1, divisor: Divisor::_1, domain: 1 << 6 },
            CompressedNode { next_index: 0, child_count: 0, divisor: Divisor::_1, domain: 0 },
        ],
        values: vec![TrieValue { path: TriePath(0), value: 42 }],
        nibbles: b"ab\0".to_vec(),
    };
    assert_eq!(trie.get_path(b"ab"), Some(TriePath(0)));
    assert_eq!(trie.get(b"ab"), Some(&42));
    assert_eq!(trie.get_path(b"ax"), None);
    assert_eq!(trie.get_path(b"b"), None);
    assert_eq!(trie.path_to_value(TriePath(7)), None);
    assert!(trie.path_to_key(TriePath(0)).is_empty());
}

#[test]
fn text_strings() {
    let strs: Vec<String> = ["action/a.hks", "event/b.emevd", "x"].iter().map(|s| s.to_string()).collect();
    let text = Text::new(&strs).unwrap();
    assert_eq!(text.get(0), Some(&b"action/a.hks"[..]));
    assert_eq!(text.get(13), Some(&b"event/b.emevd"[..]));
    assert_eq!(text.get(7), Some(&b"a.hks"[..]));
    assert_eq!(text.prefix_len(13), Some(13));
    assert_eq!(text.prefix(0, 6), &b"action"[..]);
    assert!(text.is_nul(0));
    assert!(text.is_nul(13));
    assert!(!text.is_nul(1));
    assert_eq!(text.get(29), None);
    let strings = text.strings();
    assert_eq!(strings.len(), 3);
    assert_eq!(strings[1], (13, b"event/b.emevd".to_vec()));
    assert_eq!(strings[2], (27, b"x".to_vec()));

    assert_eq!(Text::new(&vec!["a".to_string(), String::new()]).err(), Some(TextError::HasEmpty));
    assert_eq!(Text::new(&vec!["a\0b".to_string()]).err(), Some(TextError::HasNuls));

    let gsa = vec![2u32, 0, 1];
    assert_eq!(text.isa(&gsa), vec![1, 2, 0]);
}

#[test]
fn text_strings_2_keeps_string_starts() {
    let strs: Vec<String> = ["ab", "c"].iter().map(|s| s.to_string()).collect();
    let text = Text::new(&strs).unwrap();
    // text: "ab\0c\0"; whole: "\0ab\0c\0"
    let gsa = vec![2u32, 0, 4, 1, 3];
    assert_eq!(text.strings_2(&gsa), vec![0, 3]);
}
