use rust_redis::pattern::regex_of;
use rust_redis::pattern::KeyPattern;
use rust_redis::rdb::SnapshotEvent;
use rust_redis::storage::Store;

const SECOND: i128 = 1_000_000_000;

fn sorted(mut keys: Vec<String>) -> Vec<String> {
    keys.sort();
    keys
}

#[test]
fn get_of_absent_key_is_none() {
    let store = Store::new();
    assert_eq!(store.get_at("k", 0), None);
    assert_eq!(store.get("k"), None);
    assert_eq!(store.len(), 0);
}

#[test]
fn value_is_read_until_its_expiry_comes() {
    let mut store = Store::new();
    let now = 1_000 * SECOND;
    let delta = 5 * SECOND;
    store.set_at("k", "v", Some(now + delta), now);
    assert_eq!(store.get_at("k", now), Some("v".to_string()));
    assert_eq!(store.get_at("k", now + delta - 1), Some("v".to_string()));
    assert_eq!(store.get_at("k", now + delta), None);
    assert_eq!(store.get_at("k", now + delta + 1), None);
    assert_eq!(store.get_at("k", i128::MAX), None);
    assert_eq!(store.len(), 1);
}

#[test]
fn value_without_expiry_is_always_read() {
    let mut store = Store::new();
    store.set_at("k", "v", None, 7);
    assert_eq!(store.get_at("k", i128::MIN), Some("v".to_string()));
    assert_eq!(store.get_at("k", i128::MAX), Some("v".to_string()));
}

#[test]
fn second_write_stands() {
    let mut store = Store::new();
    store.set_at("k", "v1", None, 1);
    store.set_at("k", "v2", None, 2);
    assert_eq!(store.get_at("k", 3), Some("v2".to_string()));
    assert_eq!(store.len(), 1);
}

#[test]
fn overwrite_replaces_the_expiry_too() {
    let mut store = Store::new();
    store.set_at("k", "old", Some(10), 1);
    assert_eq!(store.get_at("k", 20), None);
    store.set_at("k", "new", None, 20);
    assert_eq!(store.get_at("k", 20), Some("new".to_string()));
    store.set_at("k", "short", Some(25), 21);
    assert_eq!(store.get_at("k", 24), Some("short".to_string()));
    assert_eq!(store.get_at("k", 25), None);
}

#[test]
fn a_write_leaves_other_keys() {
    let mut store = Store::new();
    store.set_at("a", "1", None, 0);
    store.set_at("b", "2", Some(100), 0);
    store.set_at("a", "3", None, 1);
    assert_eq!(store.get_at("b", 50), Some("2".to_string()));
    assert_eq!(store.get_at("a", 50), Some("3".to_string()));
    assert_eq!(store.len(), 2);
}

#[test]
fn set_and_get_by_the_clock() {
    let mut store = Store::new();
    store.set("forever", "v", None);
    assert_eq!(store.get("forever"), Some("v".to_string()));
    store.set("gone", "v", Some(0));
    assert_eq!(store.get("gone"), None);
    store.set("later", "v", Some(i128::MAX));
    assert_eq!(store.get("later"), Some("v".to_string()));
    assert_eq!(sorted(store.keys("*").unwrap()), vec!["forever".to_string(), "later".to_string()]);
}

#[test]
fn wildcard_match() {
    let mut store = Store::new();
    store.set_at("user:1", "a", None, 0);
    store.set_at("user:2", "b", None, 0);
    store.set_at("order:1", "c", None, 0);
    assert_eq!(
        sorted(store.keys_at("user:*", 1).unwrap()),
        vec!["user:1".to_string(), "user:2".to_string()]
    );
    assert_eq!(
        sorted(store.keys_at("*", 1).unwrap()),
        vec!["order:1".to_string(), "user:1".to_string(), "user:2".to_string()]
    );
}

#[test]
fn star_may_stand_anywhere() {
    let mut store = Store::new();
    for key in ["user:1:name", "user:2:name", "user:1:age", "order:1:name", "name"] {
        store.set_at(key, "v", None, 0);
    }
    assert_eq!(
        sorted(store.keys_at("user:*:name", 1).unwrap()),
        vec!["user:1:name".to_string(), "user:2:name".to_string()]
    );
    assert_eq!(
        sorted(store.keys_at("*:1:*", 1).unwrap()),
        vec!["order:1:name".to_string(), "user:1:age".to_string(), "user:1:name".to_string()]
    );
    assert_eq!(
        sorted(store.keys_at("*:age", 1).unwrap()),
        vec!["user:1:age".to_string()]
    );
    assert_eq!(store.keys_at("nothing*", 1).unwrap(), Vec::<String>::new());
}

#[test]
fn keys_are_listed_in_the_order_of_first_writes() {
    let mut store = Store::new();
    store.set_at("b", "1", None, 0);
    store.set_at("a", "2", None, 0);
    store.set_at("c", "3", None, 0);
    store.set_at("b", "4", None, 1);
    assert_eq!(
        store.keys_at("*", 2).unwrap(),
        vec!["b".to_string(), "a".to_string(), "c".to_string()]
    );
}

#[test]
fn expired_keys_are_not_listed() {
    let mut store = Store::new();
    store.set_at("live", "v", Some(100), 0);
    store.set_at("dead", "v", Some(10), 0);
    store.set_at("eternal", "v", None, 0);
    assert_eq!(
        sorted(store.keys_at("*", 10).unwrap()),
        vec!["eternal".to_string(), "live".to_string()]
    );
    assert_eq!(sorted(store.keys_at("*", 100).unwrap()), vec!["eternal".to_string()]);
    assert_eq!(store.len(), 3);
}

#[test]
fn a_pattern_describes_the_whole_key() {
    let mut store = Store::new();
    for key in ["user:1", "user:10", "order:1"] {
        store.set_at(key, "v", None, 0);
    }
    assert_eq!(
        store.keys_at("*:1", 1).unwrap(),
        vec!["user:1".to_string(), "order:1".to_string()]
    );
    assert_eq!(store.keys_at("user:1", 1).unwrap(), vec!["user:1".to_string()]);
    assert_eq!(
        store.keys_at("user:1*", 1).unwrap(),
        vec!["user:1".to_string(), "user:10".to_string()]
    );
    assert_eq!(store.keys_at("user", 1).unwrap(), Vec::<String>::new());
    assert_eq!(store.keys_at("ser:*", 1).unwrap(), Vec::<String>::new());
    assert_eq!(store.keys_at("", 1).unwrap(), Vec::<String>::new());
    assert_eq!(
        store.keys_at("*r*:*1*", 1).unwrap(),
        vec!["user:1".to_string(), "user:10".to_string(), "order:1".to_string()]
    );
    assert_eq!(store.keys_at("**", 1).unwrap().len(), 3);
}

#[test]
fn every_character_but_the_star_stands_for_itself() {
    let pattern = KeyPattern::new("ser:*").unwrap();
    assert!(pattern.matches("ser:"));
    assert!(pattern.matches("ser:1"));
    assert!(!pattern.matches("user:1"));
    let literal = KeyPattern::new("abc").unwrap();
    assert!(literal.matches("abc"));
    assert!(!literal.matches("xxabcxx"));
    assert!(!literal.matches("ab"));
    let dot = KeyPattern::new("a.c").unwrap();
    assert!(dot.matches("a.c"));
    assert!(!dot.matches("abc"));
    let caret = KeyPattern::new("^user:*$").unwrap();
    assert!(caret.matches("^user:1$"));
    assert!(!caret.matches("user:1"));
    for sign in ["\\", ".", "+", "?", "(", ")", "|", "[", "]", "{", "}", "^", "$", "#", "&", "-", "~"] {
        let pattern = KeyPattern::new(&format!("k{}*", sign)).unwrap();
        assert!(pattern.matches(&format!("k{}", sign)), "{:?}", sign);
        assert!(pattern.matches(&format!("k{}tail", sign)), "{:?}", sign);
        assert!(!pattern.matches("k"), "{:?}", sign);
        assert!(!pattern.matches("kxtail"), "{:?}", sign);
        assert!(!pattern.matches(&format!("xk{}", sign)), "{:?}", sign);
    }
    let class = KeyPattern::new("[ab]").unwrap();
    assert!(class.matches("[ab]"));
    assert!(!class.matches("a"));
    let braces = KeyPattern::new("a{2,1}").unwrap();
    assert!(braces.matches("a{2,1}"));
    let wide = KeyPattern::new("ключ:*✓").unwrap();
    assert!(wide.matches("ключ:1✓"));
    assert!(!wide.matches("ключ:1"));
    let empty = KeyPattern::new("").unwrap();
    assert!(empty.matches(""));
    assert!(!empty.matches("a"));
}

#[test]
fn a_star_stands_for_line_feeds_too() {
    let pattern = KeyPattern::new("a*z").unwrap();
    assert!(pattern.matches("a\nb\r\nz"));
    assert!(pattern.matches("az"));
    assert!(!pattern.matches("a\nz\n"));
    let all = KeyPattern::new("*").unwrap();
    assert!(all.matches(""));
    assert!(all.matches("\n"));
}

#[test]
fn the_expression_of_a_pattern() {
    assert_eq!(regex_of(""), "(?s)^$");
    assert_eq!(regex_of("*"), "(?s)^.*$");
    assert_eq!(regex_of("user:*"), "(?s)^user:.*$");
    assert_eq!(regex_of("*:1"), "(?s)^.*:1$");
    assert_eq!(regex_of("a.c"), "(?s)^a\\.c$");
    assert_eq!(regex_of("[x]"), "(?s)^\\[x\\]$");
    assert_eq!(regex_of("a\\*b"), "(?s)^a\\\\.*b$");
    assert_eq!(regex_of("**"), "(?s)^.*.*$");
    assert_eq!(regex_of("é-%"), "(?s)^é\\-%$");
}

#[test]
fn patterns_with_signs_of_regular_expressions_are_read() {
    let mut store = Store::new();
    store.set_at("[", "v", None, 0);
    store.set_at("(x", "v", None, 0);
    store.set_at("k", "v", None, 0);
    assert_eq!(store.keys_at("[", 0), Some(vec!["[".to_string()]));
    assert_eq!(store.keys_at("(*", 0), Some(vec!["(x".to_string()]));
    assert_eq!(store.keys("a{2,1}"), Some(vec![]));
    assert_eq!(Store::new().keys_at("[", 0), Some(vec![]));
}

#[test]
fn chosen_keys_are_listed_in_the_order_of_the_store() {
    let mut store = Store::new();
    store.set_at("a", "v", None, 0);
    store.set_at("b", "v", Some(10), 0);
    store.set_at("c", "v", Some(20), 0);
    store.set_at("d", "v", None, 0);
    let all = vec![true, true, true, true];
    assert_eq!(store.select_keys(&all, 5), vec!["a", "b", "c", "d"]);
    assert_eq!(store.select_keys(&all, 10), vec!["a", "c", "d"]);
    assert_eq!(store.select_keys(&all, 20), vec!["a", "d"]);
    assert_eq!(store.select_keys(&vec![false, true, false, true], 5), vec!["b", "d"]);
    assert_eq!(store.select_keys(&vec![false, true, false, true], 10), vec!["d"]);
    assert_eq!(store.select_keys(&vec![true, true], 5), vec!["a", "b"]);
    assert_eq!(store.select_keys(&vec![], 5), Vec::<String>::new());
    assert_eq!(store.select_keys(&vec![false, false, true, false, true, true], 5), vec!["c"]);
}

#[test]
fn loading_a_snapshot_applies_every_event_in_order() {
    let events = vec![
        SnapshotEvent { db_index: 0, key: "a".to_string(), value: "1".to_string(), expires_at: None },
        SnapshotEvent {
            db_index: 0,
            key: "b".to_string(),
            value: "2".to_string(),
            expires_at: Some(1_500),
        },
        SnapshotEvent { db_index: 1, key: "a".to_string(), value: "3".to_string(), expires_at: None },
        SnapshotEvent {
            db_index: 0,
            key: "c".to_string(),
            value: "4".to_string(),
            expires_at: Some(u64::MAX),
        },
    ];
    let mut store = Store::new();
    store.set_at("z", "0", None, 0);
    store.load(&events, 1_000_000_000);
    assert_eq!(store.len(), 4);
    assert_eq!(store.get_at("z", 0), Some("0".to_string()));
    assert_eq!(store.get_at("a", 0), Some("3".to_string()));
    assert_eq!(store.get_at("b", 1_499_999_999), Some("2".to_string()));
    assert_eq!(store.get_at("b", 1_500_000_000), None);
    assert_eq!(store.get_at("c", u64::MAX as i128 * 1_000_000 - 1), Some("4".to_string()));
    assert_eq!(store.get_at("c", u64::MAX as i128 * 1_000_000), None);
}

#[test]
fn a_pattern_too_large_to_compile_gives_no_list() {
    let mut store = Store::new();
    store.set_at("k", "v", None, 0);
    let pattern = "a".repeat(400_000);
    assert!(KeyPattern::new(&pattern).is_none());
    assert_eq!(store.keys_at(&pattern, 0), None);
    assert_eq!(store.keys(&pattern), None);
    assert_eq!(
        rust_redis::commands::keys(&store, vec![pattern], 0),
        Err("invalid pattern".to_string())
    );
    assert_eq!(store.len(), 1);
}
