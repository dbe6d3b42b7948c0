//! Characters, numbers, quoting, ordered tables and the clock.

use wires::clock::{now_ms, now_unix, unix_millis, unix_seconds};
use wires::envelope::{ChainState, TopicEnvelope};
use wires::ids::{bytes_less, MessageHash, NodeId, TopicId};
use wires::nodes::NodeSet;
use wires::printer::Printer;
use wires::table::{text_less, Table};
use wires::text::{
    char_is_control, char_is_whitespace, chars_of, decimal_text, escape, hex_text, join,
    quote_arg, signed_text, string_of,
};

fn all_chars() -> impl Iterator<Item = char> {
    (0..=0x10ffffu32).filter_map(char::from_u32)
}

#[test]
fn every_character_is_classed_as_std_classes_it() {
    for c in all_chars() {
        assert_eq!(char_is_control(c), c.is_control(), "{c:?}");
        assert_eq!(char_is_whitespace(c), c.is_whitespace(), "{c:?}");
    }
}

#[test]
fn no_character_breaks_a_quoted_argument() {
    for c in all_chars() {
        let arg = c.to_string();
        let quoted = quote_arg(&arg);
        assert!(!quoted.chars().any(char::is_control), "{c:?}");
        let bare = c.is_alphanumeric() || "-_./:=,+@".contains(c);
        let want = if bare { arg.clone() } else { format!("{arg:?}") };
        assert_eq!(quoted, want);
    }
    assert_eq!(quote_arg(""), "\"\"");
    assert_eq!(quote_arg("a b"), "\"a b\"");
    assert_eq!(quote_arg("-n"), "-n");
}

#[test]
fn distinct_arguments_look_different() {
    let mut args: Vec<String> = all_chars().map(String::from).collect();
    for odd in ["", "\"", "\\", "\\\"", "\"\"", "\\n", "\n", "\\u{301}", "a\u{301}", "\"a\"", "\"a b\""] {
        args.push(odd.to_string());
    }
    args.sort();
    args.dedup();
    let mut shown: Vec<String> = args.iter().map(|arg| quote_arg(arg)).collect();
    for (arg, text) in args.iter().zip(&shown) {
        assert!(text == arg || text.len() >= 2 && text.starts_with('"') && text.ends_with('"'));
    }
    shown.sort();
    shown.dedup();
    assert_eq!(shown.len(), args.len());
}

#[test]
fn escaping_writes_control_characters_out() {
    assert_eq!(escape("a\tb\nc\rd"), "a\\tb\\nc\\rd");
    assert_eq!(escape("\u{1b}[2J\u{0}\u{9f}"), "\\u{1b}[2J\\u{0}\\u{9f}");
    assert_eq!(escape("plain é \"quoted\""), "plain é \"quoted\"");
    for c in all_chars().filter(|c| c.is_control()) {
        let want: String = c.escape_default().collect();
        assert_eq!(escape(&c.to_string()), want);
        assert_eq!(escape(&escape(&c.to_string())), escape(&c.to_string()));
    }
}

#[test]
fn numbers_are_written_as_std_writes_them() {
    for n in [0u64, 1, 9, 10, 99, 100, 12_345, u64::MAX - 1, u64::MAX] {
        assert_eq!(decimal_text(n), n.to_string());
    }
    for n in [0i64, -1, 1, -10, i64::MIN, i64::MAX] {
        assert_eq!(signed_text(n), n.to_string());
    }
    assert_eq!(hex_text(&[0x00, 0x0f, 0xa0, 0xff]), "000fa0ff");
    assert_eq!(join(&vec!["a".into(), "b".into(), "c".into()], ", "), "a, b, c");
    assert_eq!(join(&vec![], ", "), "");
    let chars = chars_of("né😀");
    assert_eq!(string_of(&chars, 1, 3), "é😀");
}

#[test]
fn a_json_string_is_what_serde_json_writes() {
    let envelope = TopicEnvelope {
        topic: TopicId { bytes: [0; 32] },
        sender: NodeId { bytes: [0; 32] },
        seq: 0,
        prev_hash: MessageHash { bytes: [0; 32] },
        key_version: 0,
        timestamp: 0,
        hash: MessageHash { bytes: [0; 32] },
        wire: vec![],
    };
    let mut text = String::new();
    for c in all_chars().take(0x3000) {
        text.push(c);
    }
    let line = Printer { json: true }.render(&envelope, &text, &None);
    assert!(line.ends_with(&format!("\"text\":{}}}", serde_json::Value::from(text.as_str()))));
}

#[test]
fn texts_and_bytes_are_ordered_as_std_orders_them() {
    let words = ["", "a", "ab", "b", "é", "z", "\u{ffff}", "\u{10000}", "\u{7f}"];
    for a in words {
        for b in words {
            assert_eq!(text_less(a, b), a < b, "{a:?} {b:?}");
            assert_eq!(bytes_less(a.as_bytes(), b.as_bytes()), a < b);
        }
    }
}

#[test]
fn a_table_keeps_its_keys_in_order() {
    let mut table: Table<Vec<u8>> = Table::new();
    for key in ["m", "z", "a", "m"] {
        table.insert(key.to_string(), key.as_bytes().to_vec());
    }
    assert_eq!(table.len(), 3);
    let keys: Vec<&String> = (0..3).map(|i| table.key_at(i)).collect();
    assert_eq!(keys, ["a", "m", "z"]);
    assert_eq!(table.value_at(1), b"m");
    assert_eq!(table.get("z"), Some(&b"z".to_vec()));
    table.remove("m");
    table.remove("nothing");
    assert_eq!(table.get("m"), None);
    table.remove_at(0);
    assert_eq!(table.key_at(0), "z");
    table.clear();
    assert_eq!(table.len(), 0);
    let rows = vec![("b".to_string(), vec![1]), ("a".to_string(), vec![2]), ("b".to_string(), vec![3])];
    let table = Table::from_rows(rows);
    assert_eq!((table.len(), table.get("b")), (2, Some(&vec![3])));
}

#[test]
fn a_node_set_has_each_node_once() {
    let node = |n: u8| NodeId { bytes: [n; 32] };
    let mut set = NodeSet::new();
    assert!(set.is_empty());
    assert!(set.insert(node(1)));
    assert!(!set.insert(node(1)));
    assert!(set.insert_all(&vec![node(1), node(2)]));
    assert!(!set.insert_all(&vec![node(2)]));
    let copy = set.copy();
    assert!(set.remove(&node(1)) && !set.remove(&node(1)));
    assert!(copy.contains(&node(1)) && !set.contains(&node(1)));
    set.clear();
    assert!(set.is_empty());
}

#[test]
fn the_clock_counts_from_the_epoch() {
    let before = std::time::SystemTime::now()
        .duration_since(std::time::UNIX_EPOCH)
        .unwrap()
        .as_secs() as i64;
    let secs = now_unix();
    let millis = now_ms();
    assert!(before <= secs && secs <= before + 60);
    assert!(before * 1000 <= millis && millis <= (before + 60) * 1000);
    assert_eq!(unix_seconds(None), 0);
    assert_eq!(unix_millis(None), 0);
    assert_eq!(unix_seconds(Some(1_700_000_000)), 1_700_000_000);
    assert_eq!(unix_millis(Some(1_700_000_000_123)), 1_700_000_000_123);
    // What does not fit is cut to its low bits.
    assert_eq!(unix_seconds(Some(u64::MAX)), -1);
    assert_eq!(unix_millis(Some(1 << 64)), 0);
}

#[test]
fn a_chain_state_is_plain_data() {
    let a = ChainState { seq: 1, hash: MessageHash { bytes: [1; 32] } };
    assert!(a.hash.same(&MessageHash { bytes: [1; 32] }));
    assert!(!a.hash.same(&MessageHash { bytes: [2; 32] }));
    assert!(NodeId { bytes: [1; 32] }.less(&NodeId { bytes: [2; 32] }));
}
