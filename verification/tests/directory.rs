use t2_bus::directory::Directory;
use t2_bus::topic::parse_topic;

fn _test_drop_client(subscriptions: Vec<Vec<&str>>) {
    let mut subject = Directory::new();
    for (i, sub) in subscriptions.iter().enumerate() {
        for &topic in sub {
            subject.subscribe(i as u32, &parse_topic(topic).unwrap());
        }
    }

    let empty_topics = subject.drop_client(0);
    for topic in &empty_topics {
        assert!(subscriptions[0].contains(&topic.as_str()));
    }

    for topic in &subscriptions[0] {
        let subscribers = subject.get_subscribers(&parse_topic(topic).unwrap());
        assert!(!subscribers.contains(&0));
    }
}

#[test]
fn test_drop_client() {
    _test_drop_client(vec![vec![]]);
    _test_drop_client(vec![vec!["a"]]);
    _test_drop_client(vec![vec!["a/b"]]);
    _test_drop_client(vec![vec!["a", "b"]]);
    _test_drop_client(vec![vec!["a"], vec![]]);
    _test_drop_client(vec![vec!["a"], vec!["a"]]);
    _test_drop_client(vec![vec!["a/b"], vec!["a"]]);
    _test_drop_client(vec![vec!["a"], vec!["a/b"]]);
    _test_drop_client(vec![vec!["a/b"], vec!["a/b"]]);
    _test_drop_client(vec![vec!["a"], vec!["b"]]);
    _test_drop_client(vec![vec!["a", "b"], vec!["a"]]);
    _test_drop_client(vec![vec!["a"], vec!["a", "b"]]);
    _test_drop_client(vec![vec!["*"], vec![]]);
    _test_drop_client(vec![vec!["*"], vec!["a"]]);
    _test_drop_client(vec![vec!["*"], vec!["*"]]);
    _test_drop_client(vec![vec!["*", "a"], vec![]]);
    _test_drop_client(vec![vec!["*", "a"], vec!["a"]]);
    _test_drop_client(vec![vec!["*", "a"], vec!["*"]]);
    _test_drop_client(vec![vec!["**"], vec![]]);
    _test_drop_client(vec![vec!["**"], vec!["a"]]);
    _test_drop_client(vec![vec!["**"], vec!["*"]]);
    _test_drop_client(vec![vec!["**", "a"], vec![]]);
    _test_drop_client(vec![vec!["**", "a"], vec!["a"]]);
    _test_drop_client(vec![vec!["**", "a"], vec!["*"]]);
}

fn _test_drop_client_claim(topic_str: &str) {
    let mut subject = Directory::new();
    let topic = parse_topic(topic_str).unwrap();

    subject.claim(0, &topic).unwrap();
    subject.drop_client(0);

    assert!(subject.get_owner(&topic).is_none());
}

#[test]
fn test_drop_client_claim() {
    _test_drop_client_claim("a");
    _test_drop_client_claim("a/b");
}

fn _test_ownership_happy_path(topic_str: &str) {
    let mut subject = Directory::new();
    let topic = parse_topic(topic_str).unwrap();
    subject.claim(0, &topic).unwrap();
    assert_eq!(0, subject.get_owner(&topic).unwrap());
}

#[test]
fn test_ownership() {
    _test_ownership_happy_path("a");
    _test_ownership_happy_path("a/b");
}

#[test]
fn test_ownership_no_duplicate() {
    let mut subject = Directory::new();
    let topic = parse_topic("a").unwrap();
    subject.claim(0, &topic).unwrap();
    subject.claim(1, &topic).unwrap_err();
    assert_eq!(0, subject.get_owner(&topic).unwrap());
}

fn _test_ownership_no_wildcard(topic_str: &str) {
    let mut subject = Directory::new();
    let topic = parse_topic(topic_str).unwrap();
    subject.claim(0, &topic).unwrap_err();
    assert!(subject.get_owner(&topic).is_none());
}

#[test]
fn test_ownership_no_wildcard() {
    _test_ownership_no_wildcard("*");
    _test_ownership_no_wildcard("**");
    _test_ownership_no_wildcard("*/a");
    _test_ownership_no_wildcard("a/*");
    _test_ownership_no_wildcard("**/a");
    _test_ownership_no_wildcard("a/**");
}

#[test]
fn test_ownership_unclaim() {
    let mut subject = Directory::new();
    let topic = parse_topic("a").unwrap();
    subject.claim(0, &topic).unwrap();
    subject.unclaim(0, &topic).unwrap();
    assert!(subject.get_owner(&topic).is_none());
    subject.claim(1, &topic).unwrap();
}

fn assert_keys_match(topic_sub_str: &str, topic_pub_str: &str, expect: bool) {
    let mut subject = Directory::new();
    let topic_sub = parse_topic(topic_sub_str).unwrap();
    let topic_pub = parse_topic(topic_pub_str).unwrap();

    subject.subscribe(0, &topic_sub);
    let subscribers = subject.get_subscribers(&topic_pub);

    if expect {
        assert_eq!(1, subscribers.len());
    } else {
        assert_eq!(0, subscribers.len());
    }
}

#[test]
fn test_topic_matching() {
    assert_keys_match("a", "a", true);
    assert_keys_match("a", "a", true);
    assert_keys_match("a", "b", false);
    assert_keys_match("a/b", "a/b", true);
    assert_keys_match("a/*", "a/b", true);
    assert_keys_match("*/b", "a/b", true);
    assert_keys_match("*/c", "a/b", false);
    assert_keys_match("c/b", "a/b", false);
    assert_keys_match("a/**", "a/b/c", true);
    assert_keys_match("a/**/d", "a/b/c/d", true);
    assert_keys_match("a/**/d", "a/b/c/d/e", false);
    assert_keys_match("a/**/d/*", "a/b/c/d/e", true);
    assert_keys_match("a/**/d/f", "a/b/c/d/e", false);
    assert_keys_match("a", "*", true);
    assert_keys_match("a/b", "*", false);
    assert_keys_match("a/b", "a/*", true);
    assert_keys_match("a/b", "*/b", true);
    assert_keys_match("a/b", "*/c", false);
    assert_keys_match("a/b", "*/*", true);
    assert_keys_match("*", "*", true);
    assert_keys_match("*/b", "*/b", true);
    assert_keys_match("a/*", "*/b", true);
    assert_keys_match("*/b", "a/*", true);
    assert_keys_match("*/*", "*/*", true);
    assert_keys_match("a", "**", true);
    assert_keys_match("a/b/c", "a/**", true);
    assert_keys_match("a/b/c", "a/**/c", true);
    assert_keys_match("a/b/c", "a/**/d", false);
    assert_keys_match("a/b/c/d", "a/**/d", true);
    assert_keys_match("a/*/d", "a/**/d", true);
    assert_keys_match("a/**/d", "a/**/c/d", true);
    assert_keys_match("a/**/c/d", "a/**/d", true);
    assert_keys_match("a/**/c/d", "a/**/c/d", true);
    assert_keys_match("a/b/**/d", "a/**/c/d", true);
}

#[test]
fn double_wildcard_then_wildcard_subscription_receives_deep_topics() {
    let mut d = Directory::new();
    d.subscribe(0, &parse_topic("a/**/*").unwrap());
    assert_eq!(d.get_subscribers(&parse_topic("a/b/c").unwrap()), vec![0]);
    assert_eq!(d.get_subscribers(&parse_topic("a/b").unwrap()), vec![0]);
    assert!(d.get_subscribers(&parse_topic("a").unwrap()).is_empty());
}

#[test]
fn double_wildcard_subscription_matches_zero_fragments() {
    let mut d = Directory::new();
    d.subscribe(3, &parse_topic("a/**").unwrap());
    assert_eq!(d.get_subscribers(&parse_topic("a").unwrap()), vec![3]);
    assert!(d.get_subscribers(&parse_topic("b").unwrap()).is_empty());
}

#[test]
fn drop_client_reports_each_emptied_topic_once() {
    let mut d = Directory::new();
    for t in ["a/b", "a", "c/*", "**"] {
        d.subscribe(0, &parse_topic(t).unwrap());
    }
    d.subscribe(0, &parse_topic("a/b").unwrap());
    d.subscribe(1, &parse_topic("a").unwrap());
    let mut topics = d.drop_client(0);
    topics.sort();
    assert_eq!(topics, vec!["**".to_string(), "a/b".to_string(), "c/*".to_string()]);
    assert!(d.get_subscribers(&parse_topic("a/b").unwrap()).is_empty());
    assert_eq!(d.get_subscribers(&parse_topic("a").unwrap()), vec![1]);
}
