use t2_bus::matching::subscription_matches_exec;
use t2_bus::topic::parse_topic;

fn matches(sub: &str, publ: &str) -> bool {
    subscription_matches_exec(&parse_topic(sub).unwrap(), &parse_topic(publ).unwrap())
}

#[test]
fn every_topic_matches_itself() {
    for t in ["a", "a/b", "*", "**", "a/*/b", "a/**/b", "**/*", "*/**"] {
        assert!(matches(t, t), "{}", t);
    }
}

#[test]
fn words_match_only_identical_words() {
    assert!(matches("lobby/alice", "lobby/alice"));
    assert!(!matches("lobby/alice", "lobby/bob"));
    assert!(!matches("lobby", "lobby/alice"));
    assert!(!matches("lobby/alice", "lobby"));
}

#[test]
fn double_wildcard_subscription_receives_word_topics() {
    assert!(matches("**", "lobby/alice"));
    assert!(matches("**", "a"));
    assert!(matches("**", "**/a"));
    assert!(matches("**", "*/a"));
}

#[test]
fn double_wildcard_takes_any_number_of_fragments() {
    assert!(matches("a/**", "a"));
    assert!(matches("a/**/b", "a/b"));
    assert!(matches("a/**/b", "a/x/y/b"));
    assert!(matches("a/**/*", "a/b/c"));
    assert!(matches("a/**/*", "a/b"));
    assert!(!matches("a/**/*", "a"));
    assert!(matches("a/**/**/c", "a/c"));
    assert!(!matches("a/**/b", "a/x/c"));
    assert!(matches("a/*", "a/**"));
    assert!(!matches("a/*/c", "b/**"));
}

#[test]
fn single_wildcard_matches_one_fragment() {
    assert!(matches("*", "a"));
    assert!(matches("*", "**"));
    assert!(matches("a", "*"));
    assert!(matches("lobby/*", "lobby/alice"));
    assert!(!matches("lobby/*", "lobby/alice/x"));
    assert!(matches("*/alice", "lobby/alice"));
}

#[test]
fn chat_example_from_the_readme() {
    assert!(matches("lobby/alice", "*/alice"));
    assert!(matches("lobby/*", "lobby/alice"));
    assert!(matches("*/alice", "kitchen/alice"));
    assert!(matches("**", "kitchen/bob"));
    assert!(!matches("lobby/*", "kitchen/alice"));
}
