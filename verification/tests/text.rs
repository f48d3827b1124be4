//! Text, paths and tables.

use minimald_net::addr::{Endpoint, IpAddr, Ipv4Addr};
use minimald_net::path::join;
use minimald_net::table::Table;
use minimald_net::text::{
    decimal_string, decode, find_bytes, parse_numeral, split_lines, split_words, to_lower,
};

fn chars(s: &str) -> Vec<char> {
    s.chars().collect()
}

fn strings(pieces: Vec<Vec<char>>) -> Vec<String> {
    pieces.into_iter().map(|p| p.into_iter().collect()).collect()
}

#[test]
fn numerals_read_back_what_is_written() {
    for n in [0, 9, 10, 65_535, 1_000_000] {
        let text = decimal_string(n);
        assert_eq!(text, n.to_string());
        assert_eq!(parse_numeral(&chars(&text), 10, u64::MAX), Some(n));
    }
    assert_eq!(parse_numeral(&chars("65536"), 10, 65_535), None);
    assert_eq!(parse_numeral(&chars(""), 10, 9), None);
    assert_eq!(parse_numeral(&chars("1f90"), 16, 65_535), Some(8080));
    assert_eq!(parse_numeral(&chars("1F90"), 16, 65_535), Some(8080));
    assert_eq!(parse_numeral(&chars("+7"), 10, 9), Some(7));
    assert_eq!(parse_numeral(&chars("-7"), 10, 9), None);
}

#[test]
fn texts_split_into_lines_and_words() {
    assert_eq!(strings(split_lines(&chars("a\r\nb\n\nc"))), vec!["a", "b", "", "c"]);
    assert_eq!(strings(split_lines(&chars("a\n"))), vec!["a"]);
    assert!(split_lines(&[]).is_empty());
    assert_eq!(strings(split_words(&chars("  a\tb \n c "))), vec!["a", "b", "c"]);
    assert!(split_words(&chars("  ")).is_empty());
}

#[test]
fn only_ascii_letters_are_lowered() {
    assert_eq!(to_lower("WeB-Ä1"), "web-Ä1");
}

#[test]
fn bytes_are_found_and_decoded() {
    assert_eq!(find_bytes(b"abcabc", b"ca"), Some(2));
    assert_eq!(find_bytes(b"abc", b"x"), None);
    assert_eq!(find_bytes(b"", b"x"), None);
    assert_eq!(decode("hé".as_bytes()), Some("hé"));
    assert_eq!(decode(b"\xff"), None);
}

#[test]
fn paths_are_joined_as_the_system_joins_them() {
    assert_eq!(join("/run", "a"), "/run/a");
    assert_eq!(join("/run/", "a"), "/run/a");
    assert_eq!(join("/run", "/a"), "/a");
    assert_eq!(join("", "a"), "a");
}

#[test]
fn addresses_are_written_dotted() {
    let ip = Ipv4Addr::new(127, 0, 64, 1);
    assert_eq!(ip.to_text(), "127.0.64.1");
    assert_eq!(ip.octets(), [127, 0, 64, 1]);
    assert!(ip.is_loopback());
    assert!(!Ipv4Addr::new(128, 0, 0, 1).is_loopback());
    assert!(IpAddr::V4(ip).is_loopback());
    assert_eq!(Endpoint::new(ip, 53).to_text(), "127.0.64.1:53");
}

#[test]
fn tables_keep_their_keys_in_order() {
    let mut table: Table<String, u8> = Table::new();
    table.insert("b".to_string(), 2);
    table.insert("a".to_string(), 1);
    table.insert("b".to_string(), 3);
    assert_eq!(table.len(), 2);
    assert_eq!(table.get(&"b".to_string()), Some(&3));
    assert_eq!(*table.value_at(0), 1);
    assert_eq!(table.remove(&"a".to_string()), Some(1));
    assert_eq!(table.get(&"a".to_string()), None);
}
