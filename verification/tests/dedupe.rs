use vless_collector::dedupe::{deduplicate, entry_hash, holds_entry_at};
use vless_collector::transport::{extract_transport, TransportType};

fn list(items: &[&str]) -> Vec<String> {
    items.iter().map(|s| s.to_string()).collect()
}

#[test]
fn two_of_three_remain() {
    let unique = deduplicate(list(&[
        "vless://a?type=ws&x=1",
        "vless://a?type=ws&x=1",
        "vless://b?security=tls",
    ]));
    assert_eq!(unique.len(), 2);
    assert_eq!(unique, list(&["vless://a?type=ws&x=1", "vless://b?security=tls"]));
    assert_eq!(extract_transport(&unique[0]), TransportType::WebSocket);
    assert_eq!(extract_transport(&unique[1]), TransportType::Tls);
}

#[test]
fn removing_duplicates_twice_changes_nothing() {
    let once = deduplicate(list(&["b", "a", "b", "c", "a", "a", "d"]));
    let twice = deduplicate(once.clone());
    assert_eq!(once, twice);
}

#[test]
fn nothing_is_added_and_nothing_is_lost() {
    let input = list(&["x", "y", "x", "z", "y"]);
    let unique = deduplicate(input.clone());
    assert!(unique.len() <= input.len());
    for entry in &input {
        assert!(unique.contains(entry));
    }
    for entry in &unique {
        assert!(input.contains(entry));
    }
    for (i, a) in unique.iter().enumerate() {
        for b in &unique[i + 1..] {
            assert_ne!(a, b);
        }
    }
}

#[test]
fn the_first_of_equal_entries_is_kept() {
    assert_eq!(deduplicate(list(&["b", "a", "b", "c", "a"])), list(&["b", "a", "c"]));
}

#[test]
fn entries_are_compared_as_they_are() {
    let input = list(&[
        "vless://a?type=ws&security=tls",
        "vless://a?security=tls&type=ws",
        "vless://A?type=ws&security=tls",
        "vless://a?type=ws&security=tls ",
    ]);
    assert_eq!(deduplicate(input.clone()), input);
}

#[test]
fn edge_lists() {
    assert_eq!(deduplicate(Vec::new()), Vec::<String>::new());
    assert_eq!(deduplicate(list(&["a"])), list(&["a"]));
    assert_eq!(deduplicate(list(&["a", "a", "a"])), list(&["a"]));
    assert_eq!(deduplicate(list(&["", ""])), list(&[""]));
}

#[test]
fn the_number_of_an_entry() {
    assert_eq!(entry_hash(""), 0xcbf2_9ce4_8422_2325);
    assert_eq!(entry_hash("a"), 0xaf63_dc4c_8601_ec8c);
    assert_eq!(entry_hash("foobar"), 0x8594_4171_f739_67e8);
    assert_eq!(entry_hash("vless://a"), entry_hash("vless://a"));
    assert_ne!(entry_hash("vless://a"), entry_hash("vless://b"));
    // Bytes, not characters: U+00E9 is the two bytes C3 A9.
    let mut expected: u64 = 0xcbf2_9ce4_8422_2325;
    for b in [0xC3u8, 0xA9] {
        expected = (expected ^ b as u64).wrapping_mul(0x100_0000_01b3);
    }
    assert_eq!(entry_hash("\u{e9}"), expected);
}

#[test]
fn membership_at_given_places_is_by_text() {
    let l = list(&["a", "bc", "d"]);
    assert!(holds_entry_at(&l, &vec![0, 1], &"bc".to_string()));
    assert!(!holds_entry_at(&l, &vec![0, 2], &"bc".to_string()));
    assert!(!holds_entry_at(&l, &vec![0, 1, 2], &"b".to_string()));
    assert!(!holds_entry_at(&l, &Vec::new(), &"a".to_string()));
}

#[test]
fn entries_with_the_same_number_are_still_told_apart() {
    // Many short entries: whatever numbers they share, each distinct text stays.
    let mut input = Vec::new();
    for i in 0..2000 {
        input.push(format!("vless://{}", i % 500));
    }
    let unique = deduplicate(input);
    let expected: Vec<String> = (0..500).map(|i| format!("vless://{}", i)).collect();
    assert_eq!(unique, expected);
}

#[test]
fn a_long_list_is_handled() {
    let mut input = Vec::new();
    for round in 0..4 {
        for i in 0..50_000 {
            input.push(format!("vless://uuid-{}@host-{}.example.com:443?type=ws&round={}", i, i % 97, round % 2));
        }
    }
    let unique = deduplicate(input);
    assert_eq!(unique.len(), 100_000);
    assert_eq!(unique[0], "vless://uuid-0@host-0.example.com:443?type=ws&round=0");
    assert_eq!(unique[50_000], "vless://uuid-0@host-0.example.com:443?type=ws&round=1");
}
