use calico::delta::{collect, difference, insert_all, remove_all, SetDeltaTracker};
use calico::ordmap::{text_precedes, texts_precede, OrdMap};
use calico::pools::{parse_ipv4, Cidr, IpAddress};
use calico::seqs::Document;
use calico::text::{
    contains_char, contains_text, decimal_text, from_chars, join, opt_str_eq, parse_unsigned,
    replace, signed_decimal_text, split, starts_with, str_eq, to_chars, trim,
};

fn strings(items: &[&str]) -> Vec<String> {
    items.iter().map(|s| s.to_string()).collect()
}

#[test]
fn texts_are_taken_apart_and_put_together() {
    assert_eq!(from_chars(&to_chars("aä€")), "aä€");
    assert_eq!(split("a,b,,c", ','), vec!["a", "b", "", "c"]);
    assert_eq!(split("", ','), vec![""]);
    assert_eq!(join(&strings(&["a", "", "c"]), ", "), "a, , c");
    assert_eq!(join(&vec![], ","), "");
    assert_eq!(join(&split("x/y/z", '/'), "/"), "x/y/z");
    assert_eq!(replace("a-b--c", "-", "--"), "a--b----c");
    assert_eq!(replace("aaa", "aa", "b"), "ba");
    assert_eq!(trim("\u{2003} x y\t\n"), "x y");
    assert_eq!(trim(" \u{a0} "), "");
}

#[test]
fn texts_are_compared_and_searched() {
    assert!(str_eq("ab", "ab"));
    assert!(!str_eq("ab", "abc"));
    assert!(opt_str_eq(&None, &None));
    assert!(!opt_str_eq(&Some("a".to_string()), &None));
    assert!(starts_with("calico", "cali"));
    assert!(!starts_with("cal", "cali"));
    assert!(contains_char("a/b", '/'));
    assert!(!contains_char("ab", '/'));
    assert!(contains_text("abc", "bc"));
    assert!(contains_text("abc", ""));
    assert!(contains_text("", ""));
    assert!(!contains_text("abc", "ac"));
    assert!(!contains_text("ab", "abc"));
}

#[test]
fn numbers_are_written_and_read() {
    assert_eq!(decimal_text(0), "0");
    assert_eq!(decimal_text(u64::MAX), "18446744073709551615");
    assert_eq!(signed_decimal_text(-2147483648), "-2147483648");
    assert_eq!(signed_decimal_text(42), "42");
    assert_eq!(parse_unsigned("00255", 255), Some(255));
    assert_eq!(parse_unsigned("+7", 255), Some(7));
    assert_eq!(parse_unsigned("256", 255), None);
    assert_eq!(parse_unsigned("-1", 255), None);
    assert_eq!(parse_unsigned("", 255), None);
    assert_eq!(parse_unsigned("+", 255), None);
    assert_eq!(parse_unsigned("99999999999999999999", u64::MAX), None);
}

#[test]
fn texts_are_ordered_by_their_bytes() {
    assert!(text_precedes("a", "b"));
    assert!(text_precedes("a", "aa"));
    assert!(!text_precedes("a", "a"));
    assert!(text_precedes("z", "ä"));
    assert!("z" < "ä");
    assert!(texts_precede(
        &strings(&["a", "b"]),
        &strings(&["a", "c"])
    ));
    assert!(!texts_precede(&strings(&["b"]), &strings(&["a"])));
}

#[test]
fn maps_keep_their_keys_in_order() {
    let mut m: OrdMap<String, u32> = OrdMap::new();
    m.insert("b".into(), 2);
    m.insert("a".into(), 1);
    m.insert("c".into(), 3);
    m.insert("a".into(), 10);
    let keys: Vec<&str> = m.entries.iter().map(|(k, _)| k.as_str()).collect();
    assert_eq!(keys, vec!["a", "b", "c"]);
    assert_eq!(m.get(&"a".to_string()), Some(&10));
    assert_eq!(m.lookup("c"), Some(&3));
    assert_eq!(m.find(&"c".to_string()), Some(2));
    assert!(m.contains(&"b".to_string()));
    assert_eq!(m.remove(&"b".to_string()), Some(2));
    assert_eq!(m.remove(&"b".to_string()), None);
    assert_eq!((m.len(), m.is_empty()), (2, false));
    // The order of arrival leaves no trace.
    let mut n: OrdMap<String, u32> = OrdMap::new();
    n.insert("c".into(), 3);
    n.insert("a".into(), 10);
    assert_eq!(m, n);
}

#[test]
fn trackers_know_the_difference() {
    let mut t = SetDeltaTracker::new();
    t.replace_desired(&strings(&["a", "b", "a"]));
    assert_eq!(t.pending_additions(), vec!["a", "b"]);
    assert!(t.pending_removals().is_empty());
    t.mark_in_sync();
    assert!(t.pending_additions().is_empty());
    t.replace_desired(&strings(&["b", "c"]));
    assert_eq!(t.pending_additions(), vec!["c"]);
    assert_eq!(t.pending_removals(), vec!["a"]);
    let mut s = collect(&strings(&["x"]));
    insert_all(&mut s, &strings(&["y", "z"]));
    remove_all(&mut s, &strings(&["x", "unknown"]));
    assert_eq!(difference(&s, &collect(&strings(&["z"]))), vec!["y"]);
}

#[test]
fn addresses_are_read_strictly() {
    assert_eq!(parse_ipv4("10.0.0.1"), Some(0x0a00_0001));
    assert_eq!(parse_ipv4("255.255.255.255"), Some(u32::MAX));
    assert_eq!(parse_ipv4("256.0.0.1"), None);
    assert_eq!(parse_ipv4("10.0.0"), None);
    assert_eq!(parse_ipv4("10.0.0.1.2"), None);
    assert_eq!(parse_ipv4("10.0.0.01"), None);
    assert_eq!(parse_ipv4("10.0.0.+1"), None);
    assert_eq!(parse_ipv4("10.0.0."), None);
    assert_eq!(parse_ipv4(""), None);
}

#[test]
fn blocks_contain_blocks() {
    let block = |a: u32, n: u8| Cidr::new(IpAddress::V4(a), n).unwrap();
    assert!(block(0x0a00_0000, 8).contains(&block(0x0a01_0200, 24)));
    assert!(!block(0x0a00_0000, 24).contains(&block(0x0a00_0000, 8)));
    assert!(!block(0x0a00_0000, 8).contains(&block(0x0b00_0000, 8)));
    assert!(block(0, 0).contains(&block(u32::MAX, 32)));
    let six = Cidr::new(IpAddress::V6(1), 128).unwrap();
    assert!(six.contains(&six));
    assert!(!six.contains(&block(0, 32)));
    assert!(!block(0, 0).contains(&six));
    assert_eq!(Cidr::new(IpAddress::V4(0), 33), None);
    assert_eq!(Cidr::new(IpAddress::V6(0), 129), None);
}

#[test]
fn documents_are_lines() {
    let mut d = Document::new();
    d.line("a");
    d.line("");
    d.line("b");
    assert_eq!(d.finish(), "a\n\nb\n");
}
