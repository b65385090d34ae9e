use std::cmp::Ordering;

use rawkit::graph::Graph;
use rawkit::ham::{Ham, HamResult};
use rawkit::node::Node;
use rawkit::storage::{MemoryStorage, StorageAdapter};
use rawkit::value::Value;

fn num(n: f64) -> Value {
    Value::number(&n.to_string())
}

// ----- value -----

#[test]
fn test_value_conversions() {
    assert_eq!(Value::from("hello"), Value::Text("hello".to_string()));
    assert_eq!(Value::from(42i64), num(42.0));
    assert_eq!(Value::from(true), Value::Bool(true));
}

#[test]
fn test_lexicographic_ordering() {
    let a = Value::text("apple");
    let b = Value::text("banana");
    assert_eq!(a.lexicographic_cmp(&b), Ordering::Less);
}

#[test]
fn lexicographic_keys_of_each_kind() {
    assert_eq!(Value::Null.lexicographic_cmp(&Value::text("")), Ordering::Equal);
    assert_eq!(Value::Bool(true).lexicographic_cmp(&Value::text("true")), Ordering::Equal);
    assert_eq!(Value::Bool(false).lexicographic_cmp(&Value::Bool(true)), Ordering::Less);
    assert_eq!(Value::link("abc").lexicographic_cmp(&Value::text("~abc")), Ordering::Equal);
    assert_eq!(num(42.0).lexicographic_cmp(&num(41.0)), Ordering::Greater);
    assert_eq!(Value::text("ab").lexicographic_cmp(&Value::text("a")), Ordering::Greater);
    assert_eq!(Value::text("é").lexicographic_cmp(&Value::text("z")), "é".cmp("z"));
}

#[test]
fn value_accessors() {
    assert!(Value::Null.is_null());
    assert!(!Value::text("x").is_null());
    assert_eq!(Value::text("x").as_text(), Some("x"));
    assert_eq!(num(0.5).as_number(), Some("0.5"));
    assert_eq!(Value::link("n/1").as_link().map(|s| s.as_str()), Some("n/1"));
    assert_eq!(Value::Bool(true).as_text(), None);
    assert_eq!(Value::from(-17i64), Value::Number("-17".to_string()));
    assert_eq!(Value::from(i64::MIN), Value::Number((i64::MIN as f64).to_string()));
    assert_eq!(Value::from(String::from("s")), Value::text("s"));
}

// ----- ham -----

#[test]
fn test_newer_incoming_wins() {
    let result = Ham::resolve(1000, 900, 800, &Value::text("new"), &Value::text("old"));
    assert_eq!(result, HamResult::Accept);
}

#[test]
fn test_older_incoming_loses() {
    let result = Ham::resolve(1000, 700, 800, &Value::text("old"), &Value::text("new"));
    assert_eq!(result, HamResult::Discard);
}

#[test]
fn test_future_state_deferred() {
    let result = Ham::resolve(1000, 2000, 800, &Value::text("future"), &Value::text("current"));
    assert_eq!(result, HamResult::Defer);
}

#[test]
fn test_equal_state_lexicographic_tiebreak() {
    let result = Ham::resolve(1000, 500, 500, &Value::text("banana"), &Value::text("apple"));
    assert_eq!(result, HamResult::Accept);

    let result = Ham::resolve(1000, 500, 500, &Value::text("apple"), &Value::text("banana"));
    assert_eq!(result, HamResult::Discard);
}

#[test]
fn test_equal_state_equal_value_discards() {
    let result = Ham::resolve(1000, 500, 500, &Value::text("same"), &Value::text("same"));
    assert_eq!(result, HamResult::Discard);
}

#[test]
fn test_null_values() {
    let result = Ham::resolve(1000, 900, 800, &Value::Null, &Value::text("existing"));
    assert_eq!(result, HamResult::Accept);
}

#[test]
fn test_number_tiebreak() {
    let result = Ham::resolve(1000, 500, 500, &num(42.0), &num(41.0));
    assert_eq!(result, HamResult::Accept);
}

#[test]
fn ham_state_equal_to_machine_is_not_deferred() {
    assert_eq!(Ham::resolve(1000, 1000, 0, &Value::text("x"), &Value::Null), HamResult::Accept);
    assert_eq!(Ham::resolve(1000, 1001, 0, &Value::text("x"), &Value::Null), HamResult::Defer);
}

#[test]
fn ham_tiebreak_is_symmetric() {
    // For two different canonical texts at one state, exactly one side wins.
    let a = Value::text("pear");
    let b = Value::Bool(true);
    let ab = Ham::resolve(10, 5, 5, &a, &b);
    let ba = Ham::resolve(10, 5, 5, &b, &a);
    assert_ne!(ab, ba);
    assert!(ab == HamResult::Accept || ba == HamResult::Accept);
}

// ----- node -----

#[test]
fn test_create_node() {
    let node = Node::new("user/alice");
    assert_eq!(node.soul(), "user/alice");
    assert!(node.props.is_empty());
}

#[test]
fn test_put_and_get() {
    let mut node = Node::new("test");
    node.put("name", Value::text("Alice"), 1000);
    assert_eq!(node.get("name"), Some(&Value::text("Alice")));
    assert_eq!(node.state_of("name"), Some(1000));
}

#[test]
fn test_delete_creates_tombstone() {
    let mut node = Node::new("test");
    node.put("name", Value::text("Alice"), 1000);
    node.delete("name", 2000);
    assert_eq!(node.get("name"), Some(&Value::Null));
    assert_eq!(node.state_of("name"), Some(2000));
    // entries() skips tombstones
    assert_eq!(node.entries().len(), 0);
    // all_entries() includes them
    assert_eq!(node.all_entries().len(), 1);
}

#[test]
fn node_put_overwrites_in_place() {
    let mut node = Node::new("n");
    node.put("a", Value::text("1"), 1);
    node.put("b", Value::text("2"), 2);
    node.put("a", Value::text("3"), 3);
    assert_eq!(node.props.len(), 2);
    assert_eq!(node.get("a"), Some(&Value::text("3")));
    assert_eq!(node.state_of("a"), Some(3));
    assert_eq!(node.state_of("missing"), None);
    assert_eq!(node.get("missing"), None);
    let auto = Node::new_auto();
    assert_eq!(auto.soul().len(), 36);
}

// ----- storage -----

fn run_storage_tests(storage: &mut MemoryStorage) {
    let mut node = Node::new("test/1");
    node.put("name", Value::text("Alice"), 1000);
    storage.put("test/1", &node).unwrap();

    let retrieved = storage.get("test/1").unwrap();
    assert_eq!(retrieved.get("name"), Some(&Value::text("Alice")));

    assert!(storage.contains("test/1"));
    assert!(!storage.contains("test/999"));

    let mut node2 = Node::new("test/2");
    node2.put("name", Value::text("Bob"), 1000);
    storage.put("test/2", &node2).unwrap();

    let list = storage.list("test/");
    assert_eq!(list.len(), 2);

    storage.delete("test/1").unwrap();
    assert!(!storage.contains("test/1"));
}

#[test]
fn test_memory_storage() {
    let mut storage = MemoryStorage::new();
    run_storage_tests(&mut storage);
}

#[test]
fn memory_storage_len_and_overwrite() {
    let mut storage = MemoryStorage::new();
    assert!(storage.is_empty());
    storage.put("a", &Node::new("a")).unwrap();
    storage.put("a", &Node::new("a")).unwrap();
    storage.put("ab", &Node::new("ab")).unwrap();
    assert_eq!(storage.len(), 2);
    let mut listed = storage.list("a");
    listed.sort();
    assert_eq!(listed, vec!["a".to_string(), "ab".to_string()]);
    assert_eq!(storage.list("b").len(), 0);
    storage.delete("zzz").unwrap();
    assert_eq!(storage.len(), 2);
}

// ----- graph -----

fn wait_for_clock_to_advance() {
    let t0 = rawkit::ham::now_ms();
    while rawkit::ham::now_ms() <= t0 + 1 {}
}

#[test]
fn test_basic_put_get() {
    let mut graph = Graph::in_memory();
    graph.put("users/alice", "name", Value::text("Alice"));
    graph.put("users/alice", "age", num(30.0));

    assert_eq!(graph.get("users/alice", "name"), Some(Value::text("Alice")));
    assert_eq!(graph.get("users/alice", "age"), Some(num(30.0)));
    assert_eq!(graph.get("users/alice", "missing"), None);
}

#[test]
fn test_put_overwrites_with_newer_state() {
    let mut graph = Graph::in_memory();
    graph.put("test", "val", Value::text("first"));
    wait_for_clock_to_advance();
    graph.put("test", "val", Value::text("second"));
    assert_eq!(graph.get("test", "val"), Some(Value::text("second")));
}

#[test]
fn test_delete_property() {
    let mut graph = Graph::in_memory();
    graph.put("test", "name", Value::text("Alice"));
    wait_for_clock_to_advance();
    graph.delete("test", "name");
    assert_eq!(graph.get("test", "name"), None);
}

#[test]
fn test_set_creates_collection() {
    let mut graph = Graph::in_memory();
    let soul1 = graph.set("messages/general", Value::text("Hello"));
    let soul2 = graph.set("messages/general", Value::text("World"));

    assert_ne!(soul1, soul2);

    let parent = graph.get_node("messages/general").unwrap();
    assert!(parent.get(&soul1).is_some());
    assert!(parent.get(&soul2).is_some());

    assert_eq!(graph.get(&soul1, "value"), Some(Value::text("Hello")));
    assert_eq!(graph.get(&soul2, "value"), Some(Value::text("World")));
}

#[test]
fn test_subscription() {
    let mut graph = Graph::in_memory();
    let _sub = graph.on("users/alice");
    let mut count = 0;

    for (soul, key, value) in [
        ("users/alice", "name", Value::text("Alice")),
        ("users/alice", "age", num(30.0)),
        ("users/bob", "name", Value::text("Bob")),
    ] {
        count += graph.put_notify(soul, key, value).1.len();
    }

    assert_eq!(count, 2);
}

#[test]
fn test_subscription_drop_unsubscribes() {
    let mut graph = Graph::in_memory();
    let mut count = 0;
    let sub = graph.on("test");

    count += graph.put_notify("test", "a", Value::text("1")).1.len();
    assert_eq!(count, 1);

    graph.unsubscribe(sub);
    count += graph.put_notify("test", "b", Value::text("2")).1.len();
    assert_eq!(count, 1);
}

#[test]
fn subscription_ids_count_up() {
    let mut graph = Graph::in_memory();
    assert_eq!(graph.next_listener_id(), 0);
    let a = graph.on("x");
    let b = graph.on("y");
    assert_eq!((a.id, b.id), (0, 1));
    assert_eq!(graph.next_listener_id(), 2);
    graph.unsubscribe(a);
    assert_eq!(graph.next_listener_id(), 2);
    assert_eq!(graph.listeners_for("x"), Vec::<u64>::new());
    assert_eq!(graph.listeners_for("y/z"), vec![1]);
}

#[test]
fn listeners_match_soul_and_children_only() {
    let mut graph = Graph::in_memory();
    let a = graph.on("users");
    let b = graph.on("users/alice");
    let _c = graph.on("posts");
    assert_eq!(graph.listeners_for("users/alice"), vec![a.id, b.id]);
    assert_eq!(graph.listeners_for("users/alice/posts"), vec![a.id, b.id]);
    assert_eq!(graph.listeners_for("usersX"), Vec::<u64>::new());
    assert_eq!(graph.listeners_for("users"), vec![a.id]);
}

#[test]
fn test_ham_conflict_resolution_newer_wins() {
    let mut graph = Graph::in_memory();
    graph.put_with_state("test", "name", Value::text("Alice"), 1000);
    graph.put_with_state("test", "name", Value::text("Bob"), 900);
    assert_eq!(graph.get("test", "name"), Some(Value::text("Alice")));
}

#[test]
fn test_list_by_prefix() {
    let mut graph = Graph::in_memory();
    graph.put("users/alice", "name", Value::text("Alice"));
    graph.put("users/bob", "name", Value::text("Bob"));
    graph.put("posts/1", "title", Value::text("Hello"));

    let users = graph.list("users/");
    assert_eq!(users.len(), 2);

    let posts = graph.list("posts/");
    assert_eq!(posts.len(), 1);
}

#[test]
fn test_put_multi() {
    let mut graph = Graph::in_memory();
    let props = vec![
        ("name".to_string(), Value::text("Alice")),
        ("age".to_string(), num(30.0)),
        ("active".to_string(), Value::Bool(true)),
    ];

    graph.put_multi("users/alice", props);

    assert_eq!(graph.get("users/alice", "name"), Some(Value::text("Alice")));
    assert_eq!(graph.get("users/alice", "age"), Some(num(30.0)));
    assert_eq!(graph.get("users/alice", "active"), Some(Value::Bool(true)));
}

#[test]
fn future_writes_are_deferred_then_processed() {
    let mut graph = Graph::in_memory();
    assert_eq!(graph.put_with_state_at("n", "k", Value::text("later"), 5000, 1000), HamResult::Defer);
    assert_eq!(graph.get("n", "k"), None);
    graph.process_deferred_at(4000);
    assert_eq!(graph.get("n", "k"), None);
    graph.process_deferred_at(5000);
    assert_eq!(graph.get("n", "k"), Some(Value::text("later")));
    let node = graph.get_node("n").unwrap();
    assert_eq!(node.state_of("k"), Some(5000));
}

#[test]
fn writes_converge_whatever_the_order() {
    let writes = [("x", 700i64), ("y", 700), ("z", 650)];
    let mut forward = Graph::in_memory();
    let mut backward = Graph::in_memory();
    for (v, s) in writes.iter() {
        forward.put_with_state_at("n", "k", Value::text(v), *s, 1000);
    }
    for (v, s) in writes.iter().rev() {
        backward.put_with_state_at("n", "k", Value::text(v), *s, 1000);
    }
    assert_eq!(forward.get("n", "k"), Some(Value::text("y")));
    assert_eq!(backward.get("n", "k"), Some(Value::text("y")));
    // the same write twice is one write
    assert_eq!(forward.put_with_state_at("n", "k", Value::text("y"), 700, 1000), HamResult::Discard);
}

#[test]
fn delete_node_and_once() {
    let mut graph = Graph::in_memory();
    graph.put_with_state_at("n", "k", Value::text("v"), 10, 10);
    assert_eq!(graph.once("n", "k"), Some(Value::text("v")));
    graph.delete_node("n");
    assert!(graph.get_node("n").is_none());
    assert_eq!(graph.once("n", "k"), None);
}

#[test]
fn only_accepted_writes_notify() {
    let mut graph = Graph::in_memory();
    let sub = graph.on("n");
    let (r, ids) = graph.put_with_state_notify("n", "k", Value::text("new"), 2000);
    assert_eq!(r, HamResult::Accept);
    assert_eq!(ids, vec![sub.id]);
    let (r, ids) = graph.put_with_state_notify("n", "k", Value::text("old"), 1000);
    assert_eq!(r, HamResult::Discard);
    assert!(ids.is_empty());
    let (_, ids) = graph.put_with_state_notify("other", "k", Value::text("x"), 1000);
    assert!(ids.is_empty());
}

#[test]
fn integer_values_hold_what_a_float_holds() {
    for n in [
        0i64,
        42,
        -17,
        9007199254740992,
        9007199254740993,
        9007199254740995,
        -9007199254740995,
        123456789012345678,
        i64::MAX,
        i64::MIN,
        i64::MIN + 1,
    ] {
        assert_eq!(Value::from(n), Value::Number((n as f64).to_string()), "{}", n);
    }
    assert_eq!(Value::from(9007199254740993i64), Value::Number("9007199254740992".to_string()));
    assert_eq!(Value::from(i64::MAX), Value::Number("9223372036854776000".to_string()));
}

#[test]
fn integer_values_match_float_display_across_the_range() {
    let mut x: u64 = 0x9E37_79B9_7F4A_7C15;
    for i in 0..20000u32 {
        x = x.wrapping_mul(6364136223846793005).wrapping_add(1442695040888963407);
        let shift = i % 64;
        let n = (x >> shift) as i64;
        let n = if i % 3 == 0 { n.wrapping_neg() } else { n };
        assert_eq!(Value::from(n), Value::Number((n as f64).to_string()), "{}", n);
    }
}
