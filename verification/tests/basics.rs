use rust_mq::ids::sort_ids;
use rust_mq::maps::{VecMap, VecSet};
use rust_mq::text::{
    contains_text, decimal, pad_decimal, parse_i32, parse_i64, parse_u64, rsplit_once, splitn,
    strip_prefix, trim, trim_start_matches, utf8_text,
};
use rust_mq::wire::{bits_of_i64, get_le, i64_of_bits, put_le};

#[test]
fn numbers_are_written_and_read() {
    assert_eq!(decimal(i64::MIN), i64::MIN.to_string());
    assert_eq!(pad_decimal(-7, 5), format!("{:05}", -7));
    assert_eq!(pad_decimal(42, 10), format!("{:010}", 42));
    for text in ["0", "-5", "+7", "007", "2147483647", "2147483648", "", "-", "1x", " 1"] {
        assert_eq!(parse_i32(text), text.parse::<i32>().ok(), "{text}");
        assert_eq!(parse_i64(text), text.parse::<i64>().ok(), "{text}");
        assert_eq!(parse_u64(text), text.parse::<u64>().ok(), "{text}");
    }
}

#[test]
fn texts_are_cut() {
    let cases = ["a:b:c", ":", "", "abc", "a:", "::x"];
    for text in cases {
        let own: Option<(String, String)> = rsplit_once(text, ':');
        let std = text.rsplit_once(':').map(|(a, b)| (a.to_string(), b.to_string()));
        assert_eq!(own, std, "{text}");
        let own = splitn(text, 2, ':');
        let std: Vec<String> = text.splitn(2, ':').map(|p| p.to_string()).collect();
        assert_eq!(own, std, "{text}");
    }
    assert_eq!(trim("  a b\t\n"), "a b");
    assert_eq!(trim("\u{a0}x\u{3000}"), "x");
    assert_eq!(trim_start_matches("http://http://h", "http://"), "h");
    assert_eq!(strip_prefix("http://h", "http://"), Some("h".to_string()));
    assert_eq!(strip_prefix("h", "http://"), None);
    assert!(contains_text("xNOT_LEADERy", "NOT_LEADER"));
    assert!(!contains_text("NOT", "NOT_LEADER"));
    assert_eq!(utf8_text("gr\u{fc}n".as_bytes()), Some("gr\u{fc}n".to_string()));
    assert_eq!(utf8_text(&[0xc3]), None);
}

#[test]
fn numbers_have_their_bytes() {
    let mut out = Vec::new();
    put_le(&mut out, 0x0102_0304, 4);
    assert_eq!(out, vec![4, 3, 2, 1]);
    assert_eq!(get_le(&out, 0, 4), 0x0102_0304);
    assert_eq!(i64_of_bits(bits_of_i64(-9)), -9);
    assert_eq!(bits_of_i64(-1), u64::MAX);
}

#[test]
fn maps_bind_and_forget() {
    let mut map: VecMap<String, i32> = VecMap::new();
    assert!(map.is_empty());
    map.insert("a".to_string(), 1);
    map.insert("b".to_string(), 2);
    map.insert("a".to_string(), 3);
    assert_eq!((map.len(), map.get(&"a".to_string())), (2, Some(&3)));
    assert_eq!(map.remove(&"a".to_string()), Some(3));
    assert_eq!(map.remove(&"a".to_string()), None);
    assert_eq!(map.keys(), vec!["b".to_string()]);
    let mut set = VecSet::single(4i32);
    set.insert(4);
    set.insert(5);
    assert_eq!(set.len(), 2);
    set.remove(&4);
    assert!(!set.contains(&4));
    assert_eq!(set.elements(), vec![5]);
}

#[test]
fn ids_are_sorted() {
    let sorted = sort_ids(&vec![3, 1, 2, 1]);
    assert_eq!(sorted, vec![1, 1, 2, 3]);
}
