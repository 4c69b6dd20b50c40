use t2_bus::topic::{topic_is_valid, unprefix_topic};

#[test]
fn test_rgx_topic() {
    assert!(topic_is_valid("a"));
    assert!(topic_is_valid("abc"));
    assert!(topic_is_valid("0"));
    assert!(topic_is_valid("a0"));
    assert!(topic_is_valid("0a"));
    assert!(topic_is_valid("*"));
    assert!(topic_is_valid("**"));

    assert!(!topic_is_valid("a/"));
    assert!(!topic_is_valid("0/"));
    assert!(!topic_is_valid("*/"));
    assert!(!topic_is_valid("**/"));

    assert!(topic_is_valid("a/b"));
    assert!(topic_is_valid("0/b"));
    assert!(topic_is_valid("a/0"));
    assert!(topic_is_valid("ab/b"));
    assert!(topic_is_valid("a/ba"));
    assert!(topic_is_valid("**/b"));
    assert!(topic_is_valid("*/b"));
    assert!(topic_is_valid("a/*"));
    assert!(topic_is_valid("a/**"));
    assert!(topic_is_valid("**/*"));
    assert!(topic_is_valid("*/**"));
}

#[test]
fn test_unprefix_topic() {
    assert_eq!("a/b/c", &unprefix_topic("prefix/a/b/c"))
}

use t2_bus::err::BusError;
use t2_bus::topic::{get_protocol, join_topic_exec, parse_topic, prefix_topic, split_topic_exec};

#[test]
fn parse_topic_splits_fragments() {
    let parts = parse_topic("price/*/eur").unwrap();
    assert_eq!(parts, vec!["price".to_string(), "*".to_string(), "eur".to_string()]);
}

#[test]
fn parse_topic_rejects_invalid_strings() {
    for bad in ["", "a/", "/a", "a//b", "A", "a-b", "***", "a*", "a b"] {
        assert_eq!(
            parse_topic(bad),
            Err(BusError::InvalidTopicString(format!("Invalid topic string: {}", bad)))
        );
    }
}

#[test]
fn get_protocol_is_first_fragment() {
    assert_eq!(get_protocol("test/a/b").unwrap(), "test");
    assert_eq!(get_protocol("test").unwrap(), "test");
    assert!(get_protocol("Test").is_err());
}

#[test]
fn prefix_topic_adds_prefix() {
    assert_eq!(prefix_topic("test", "a/b/c"), "test/a/b/c");
    assert_eq!(prefix_topic("test", ""), "test");
}

#[test]
fn unprefix_undoes_prefix() {
    assert_eq!(unprefix_topic(&prefix_topic("hello", "alice")), "alice");
    assert_eq!(unprefix_topic(&prefix_topic("hello", "a/b")), "a/b");
}

#[test]
fn split_and_join_round_trip() {
    let parts = split_topic_exec("a/b/c");
    assert_eq!(parts.len(), 3);
    assert_eq!(join_topic_exec(&parts), "a/b/c");
    assert_eq!(split_topic_exec(""), vec![String::new()]);
    assert_eq!(split_topic_exec("a/"), vec!["a".to_string(), String::new()]);
    assert_eq!(join_topic_exec(&[]), "");
}

#[test]
fn prefixing_adds_the_protocol_as_first_fragment() {
    let t = prefix_topic("test", "a/*/b");
    assert_eq!(parse_topic(&t).unwrap(), vec!["test".to_string(), "a".to_string(), "*".to_string(), "b".to_string()]);
    assert_eq!(get_protocol(&t).unwrap(), "test");
    let e = prefix_topic("test", "");
    assert_eq!(parse_topic(&e).unwrap(), vec!["test".to_string()]);
    assert_eq!(get_protocol(&e).unwrap(), "test");
}
