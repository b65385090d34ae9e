use rawkit::graph::Graph;
use rawkit::message::{Message, MessageKind, UpdateEntry};
use rawkit::peer::PeerManager;
use rawkit::value::Value;
use rawkit::vectors::MockEmbedding;

fn put_message(soul: &str, key: &str, value: Value, state: i64) -> Message {
    Message::new_put(soul.to_string(), vec![(key.to_string(), UpdateEntry { value, state })])
}

#[test]
fn test_peer_sync() {
    let mut graph_a = Graph::in_memory();
    let graph_b = Graph::in_memory();

    let mut peer_b = PeerManager::new(graph_b);
    peer_b.add_peer("a");

    graph_a.put("users/alice", "name", Value::text("Alice"));

    let node = graph_a.get_node("users/alice").unwrap();
    let mut updates = Vec::new();
    for (k, v) in node.all_entries() {
        let state = node.state_of(&k).unwrap_or(0);
        updates.push((k, UpdateEntry { value: v, state }));
    }
    let msg = Message::new_put("users/alice".to_string(), updates);

    let response = peer_b.handle_message(&msg);
    assert!(response.is_some());

    assert_eq!(peer_b.graph().get("users/alice", "name"), Some(Value::text("Alice")));
}

#[test]
fn test_get_response() {
    let mut graph = Graph::in_memory();
    graph.put("test", "value", Value::text("hello"));

    let mut peer = PeerManager::new(graph);
    let get_msg = Message::new_get("test".to_string(), Some("value".to_string()));

    let response = peer.handle_message(&get_msg);
    assert!(response.is_some());

    match response.unwrap().kind {
        MessageKind::Put { soul, updates, .. } => {
            assert_eq!(soul, "test");
            let entry = &updates.iter().find(|(k, _)| k == "value").unwrap().1;
            assert_eq!(entry.value, Value::text("hello"));
        }
        _ => panic!("expected Put response"),
    }
}

#[test]
fn test_dedup_prevents_echo() {
    let graph = Graph::in_memory();
    let mut peer = PeerManager::new(graph);

    let msg = put_message("test", "key", Value::text("val"), 1000);

    assert!(peer.handle_message(&msg).is_some());
    assert!(peer.handle_message(&msg).is_none());
}

#[test]
fn put_is_acknowledged_by_id_and_forwarded_to_every_peer() {
    let mut peer = PeerManager::new(Graph::in_memory());
    peer.add_peer("x");
    peer.add_peer("y");
    assert_eq!(peer.peer_count(), 2);

    let msg = put_message("n", "k", Value::text("v"), 5);
    let reply = peer.handle_message(&msg).unwrap();
    match reply.kind {
        MessageKind::Ack { message_id } => assert_eq!(message_id, msg.id),
        _ => panic!("expected an acknowledgement"),
    }

    let to_x = peer.drain_outbox("x");
    assert_eq!(to_x.len(), 1);
    assert_eq!(to_x[0].id, msg.id);
    assert_eq!(peer.drain_outbox("x").len(), 0);
    assert_eq!(peer.drain_outbox("y").len(), 1);
    assert_eq!(peer.drain_outbox("nobody").len(), 0);
}

#[test]
fn removed_peer_gets_nothing() {
    let mut peer = PeerManager::new(Graph::in_memory());
    peer.add_peer("x");
    peer.add_peer("y");
    peer.remove_peer("x");
    assert_eq!(peer.peer_count(), 1);
    peer.handle_message(&put_message("n", "k", Value::Null, 1));
    assert_eq!(peer.drain_outbox("x").len(), 0);
    assert_eq!(peer.drain_outbox("y").len(), 1);
}

#[test]
fn older_incoming_write_loses() {
    let mut graph = Graph::in_memory();
    graph.put_with_state("n", "k", Value::text("new"), 2000);
    let mut peer = PeerManager::new(graph);
    peer.handle_message(&put_message("n", "k", Value::text("old"), 1000));
    assert_eq!(peer.graph().get("n", "k"), Some(Value::text("new")));
    peer.handle_message(&put_message("n", "k", Value::text("newer"), 3000));
    assert_eq!(peer.graph().get("n", "k"), Some(Value::text("newer")));
}

#[test]
fn get_of_missing_data_has_no_reply() {
    let mut graph = Graph::in_memory();
    graph.put("n", "a", Value::text("1"));
    let mut peer = PeerManager::new(graph);
    assert!(peer.handle_message(&Message::new_get("nothing".to_string(), None)).is_none());
    assert!(peer.handle_message(&Message::new_get("n".to_string(), Some("b".to_string()))).is_none());
}

#[test]
fn get_of_whole_node_returns_every_property_with_tombstones() {
    let mut graph = Graph::in_memory();
    graph.put_with_state("n", "a", Value::text("1"), 1);
    graph.put_with_state("n", "b", Value::text("2"), 1);
    graph.delete("n", "b");
    let mut peer = PeerManager::new(graph);
    let reply = peer.handle_message(&Message::new_get("n".to_string(), None)).unwrap();
    match reply.kind {
        MessageKind::Put { soul, updates, signature, signer } => {
            assert_eq!(soul, "n");
            assert_eq!(updates.len(), 2);
            let a = &updates.iter().find(|(k, _)| k == "a").unwrap().1;
            let b = &updates.iter().find(|(k, _)| k == "b").unwrap().1;
            assert_eq!(a.value, Value::text("1"));
            assert_eq!(b.value, Value::Null);
            assert!(b.state >= a.state);
            assert!(signature.is_none());
            assert!(signer.is_none());
        }
        _ => panic!("expected Put response"),
    }
}

#[test]
fn other_messages_get_no_reply() {
    let mut peer = PeerManager::new(Graph::in_memory());
    assert!(peer.handle_message(&Message::new_sub("users/*".to_string())).is_none());
    assert!(peer.handle_message(&Message::new_ack("m".to_string())).is_none());
}

#[test]
fn message_ids_are_fresh() {
    let a = Message::new_ack("x".to_string());
    let b = Message::new_ack("x".to_string());
    assert_ne!(a.id, b.id);
    assert_eq!(a.id.len(), 36);
}

#[test]
fn mock_embedding_reports_its_shape() {
    let provider = MockEmbedding::new(128);
    assert_eq!(provider.dimensions(), 128);
    assert_eq!(provider.model_name(), "mock-embedding");
}

#[test]
fn forwarded_put_skips_its_sender() {
    let mut peer = PeerManager::new(Graph::in_memory());
    peer.add_peer("a");
    peer.add_peer("b");
    peer.add_peer("c");
    let msg = put_message("n", "k", Value::text("v"), 1);
    assert!(peer.handle_message_from("b", &msg).is_some());
    assert_eq!(peer.drain_outbox("a").len(), 1);
    assert_eq!(peer.drain_outbox("b").len(), 0);
    assert_eq!(peer.drain_outbox("c").len(), 1);
}

#[test]
fn local_put_goes_to_every_peer() {
    let mut peer = PeerManager::new(Graph::in_memory());
    peer.add_peer("a");
    peer.add_peer("b");
    let msg = put_message("n", "k", Value::text("v"), 1);
    assert!(peer.handle_message(&msg).is_some());
    assert_eq!(peer.drain_outbox("a").len(), 1);
    assert_eq!(peer.drain_outbox("b").len(), 1);
    assert_eq!(peer.drain_outbox("zzz").len(), 0);
}

#[test]
fn local_writes_through_the_manager_are_served() {
    let mut peer = PeerManager::new(Graph::in_memory());
    peer.graph_mut().put("n", "k", Value::text("local"));
    let reply = peer.handle_message(&Message::new_get("n".to_string(), Some("k".to_string()))).unwrap();
    match reply.kind {
        MessageKind::Put { updates, .. } => {
            assert_eq!(updates.len(), 1);
            assert_eq!(updates[0].1.value, Value::text("local"));
        }
        _ => panic!("expected a PUT"),
    }
}

#[test]
fn acks_have_fresh_ids() {
    let mut peer = PeerManager::new(Graph::in_memory());
    let msg = put_message("n", "k", Value::text("v"), 1);
    let ack = peer.handle_message(&msg).unwrap();
    assert_ne!(ack.id, msg.id);
    assert_eq!(ack.id.len(), 36);
    assert_eq!(ack.id.as_bytes()[14], b'4');
}
