use untitled_messenger::bytes::sorted_unique;
use untitled_messenger::keymap::{KeyMap, KeySet};
use untitled_messenger::text::{contains_text, is_whitespace, parse_number, push_decimal, trim};

#[test]
fn white_space_is_that_of_std() {
    for code in 0..=0x10FFFFu32 {
        if let Some(c) = char::from_u32(code) {
            assert_eq!(is_whitespace(c), c.is_whitespace(), "{code:x}");
        }
    }
}

#[test]
fn trimming_is_that_of_std() {
    for s in ["", " ", "a", " a b ", "\u{2003}x\u{85}", "\t\n x \r\n"] {
        assert_eq!(trim(s), s.trim());
    }
}

#[test]
fn numbers_are_read_as_std_reads_them() {
    for s in ["0", "7", "+7", "007", "4294967295", "4294967296", "", "+", "-1", " 1", "1x", "٣"] {
        assert_eq!(parse_number(s), s.parse::<u32>().ok(), "{s:?}");
    }
}

#[test]
fn numbers_are_written_as_std_writes_them() {
    for n in [0u64, 9, 10, 99, 100, 4_294_967_296, u64::MAX] {
        let mut s = String::new();
        push_decimal(&mut s, n);
        assert_eq!(s, n.to_string());
    }
}

#[test]
fn a_part_of_a_text_is_found() {
    assert!(contains_text("open: wrong passphrase!", "wrong passphrase"));
    assert!(contains_text("x", ""));
    assert!(!contains_text("", "x"));
    assert!(!contains_text("wrong pass", "wrong passphrase"));
}

#[test]
fn keys_come_in_order_and_once() {
    let keys = vec![[9u8; 32], [1; 32], [9; 32], [0xff; 32], [1; 32]];
    assert_eq!(sorted_unique(&keys), vec![[1u8; 32], [9; 32], [0xff; 32]]);
}

#[test]
fn a_map_keeps_one_value_for_a_key() {
    let mut m: KeyMap<u32, &str> = KeyMap::new();
    m.insert(1, "one");
    m.insert(2, "two");
    m.insert(1, "uno");
    assert_eq!(m.len(), 2);
    assert_eq!(m.get(&1), Some(&"uno"));
    assert_eq!(m.remove(&1), Some("uno"));
    assert_eq!(m.remove(&1), None);
    assert!(m.contains(&2));
    let mut s: KeySet<u32> = KeySet::new();
    assert!(s.insert(3));
    assert!(!s.insert(3));
    assert!(s.contains(&3));
    assert!(s.remove(&3));
    assert!(!s.remove(&3));
    assert_eq!(s.len(), 0);
}
