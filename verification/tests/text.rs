use mudhuts::assoc::AssocMap;
use mudhuts::graph::NodeId;
use mudhuts::text::{
    ends_with, find_char, join_path, parse_number, push_decimal, starts_with, str_eq, trim_range,
};

#[test]
fn text_is_compared_and_searched() {
    assert!(str_eq("abc", "abc"));
    assert!(!str_eq("abc", "abd"));
    assert!(starts_with("abc", "ab"));
    assert!(ends_with("abc", "bc"));
    assert!(!ends_with("abc", "ab"));
    assert_eq!(find_char(&"a=b".chars().collect(), '=', 0), 1);
    assert_eq!(trim_range(&" \u{a0}ab\t".chars().collect(), 0, 5), (2, 4));
}

#[test]
fn numbers_are_written_and_read_in_decimal() {
    let mut out = String::from("n=");
    push_decimal(&mut out, 1_234_567_890_123);
    assert_eq!(out, "n=1234567890123");
    assert_eq!(parse_number("42"), Some(42));
    assert_eq!(parse_number("4294967296"), None);
    assert_eq!(parse_number("4 2"), None);
    assert_eq!(parse_number(""), None);
}

#[test]
fn a_path_is_joined_by_one_slash() {
    assert_eq!(join_path("/a", "b"), "/a/b");
    assert_eq!(join_path("/a/", "b"), "/a/b");
    assert_eq!(join_path("", "b"), "b");
}

#[test]
fn a_map_keeps_one_value_per_key() {
    let mut map: AssocMap<NodeId, &str> = AssocMap::new();
    map.insert(NodeId(1), "a");
    map.insert(NodeId(2), "b");
    map.insert(NodeId(1), "c");
    assert_eq!(map.get(&NodeId(1)), Some(&"c"));
    assert_eq!(map.keys().len(), 2);
    assert_eq!(map.remove(&NodeId(1)), Some("c"));
    assert!(!map.contains_key(&NodeId(1)));
    assert_eq!(map.remove(&NodeId(1)), None);
}
