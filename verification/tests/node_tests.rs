use gossip_node::db::Db;
use gossip_node::neighbors::{add_known_peer, NeighborTable};
use gossip_node::node::{Node, NodeError, Reply, Request, TopologyEntry};

fn sorted(mut v: Vec<u64>) -> Vec<u64> {
    v.sort();
    v
}

fn read_values(n: &mut Node, rid: &String) -> Vec<u64> {
    match n.process(Request::Read, rid).unwrap().reply {
        Reply::ReadOk { messages } => sorted(messages),
        other => panic!("expected read_ok, got {:?}", other),
    }
}

#[test]
fn insert_idempotent() {
    let mut db = Db::new("/tmp/gossip_node_idem").unwrap();
    db.set_broadcast_id(5).unwrap();
    let first = sorted(db.seen_broadcast_values().unwrap());
    db.set_broadcast_id(5).unwrap();
    db.set_broadcast_id(5).unwrap();
    let again = sorted(db.seen_broadcast_values().unwrap());
    assert!(first.contains(&5));
    assert_eq!(first, again);
}

#[test]
fn insert_completeness() {
    let mut db = Db::new("/tmp/gossip_node_complete").unwrap();
    for v in [5u64, 7, 5, 9] {
        db.set_broadcast_id(v).unwrap();
    }
    let got = sorted(db.seen_broadcast_values().unwrap());
    assert_eq!(got, vec![5, 7, 9]);
}

#[test]
fn merge_topology_unions() {
    let mut t = NeighborTable::new();
    let n1 = "n1".to_string();
    t.merge_topology(&n1, &vec!["n2".to_string()]);
    t.merge_topology(&n1, &vec!["n3".to_string()]);
    let mut ps = t.peers_of_node(&n1).unwrap();
    ps.sort();
    assert_eq!(ps, vec!["n2".to_string(), "n3".to_string()]);
}

#[test]
fn register_keeps_populated_peers() {
    let mut t = NeighborTable::new();
    let n1 = "n1".to_string();
    t.merge_topology(&n1, &vec!["n2".to_string()]);
    add_known_peer(&mut t, "n1");
    add_known_peer(&mut t, "n1");
    let ps = t.peers_of_node(&n1).unwrap();
    assert_eq!(ps, vec!["n2".to_string()]);
}

#[test]
fn register_creates_empty_entry() {
    let mut t = NeighborTable::new();
    assert!(t.peers_of_node(&"n9".to_string()).is_none());
    add_known_peer(&mut t, "n9");
    let ps = t.peers_of_node(&"n9".to_string()).unwrap();
    assert!(ps.is_empty());
}

#[test]
fn snapshot_lists_every_registered_node() {
    let mut t = NeighborTable::new();
    add_known_peer(&mut t, "a");
    add_known_peer(&mut t, "b");
    add_known_peer(&mut t, "a");
    let mut ids = t.snapshot_all_node_ids();
    ids.sort();
    assert_eq!(ids, vec!["a".to_string(), "b".to_string()]);
}

#[test]
fn store_open_failure_is_reported() {
    let r = Db::new("/tmp/gossip_node_missing_dir/sub/x");
    match r {
        Ok(_) => panic!("opening under a missing directory should fail"),
        Err(e) => assert!(!e.message.is_empty()),
    }
}

#[test]
fn requests_before_init_fail() {
    let mut n = Node::new();
    let rid = "n1".to_string();
    assert!(matches!(n.process(Request::Read, &rid), Err(NodeError::NotInitialized)));
    assert!(matches!(
        n.process(Request::Broadcast { message: 1 }, &rid),
        Err(NodeError::NotInitialized)
    ));
    assert!(matches!(
        n.process(Request::ReadOk { messages: vec![1, 2] }, &rid),
        Err(NodeError::NotInitialized)
    ));
    // an empty backfill touches nothing and needs no store
    assert!(n.process(Request::ReadOk { messages: vec![] }, &rid).is_ok());
    // the store is untouched: reading still finds none attached
    assert!(matches!(n.process(Request::Read, &rid), Err(NodeError::NotInitialized)));
}

#[test]
fn init_needs_node_id() {
    let mut n = Node::new();
    let r = n.process(Request::Init { node_ids: vec!["a".to_string()] }, &String::new());
    assert!(matches!(r, Err(NodeError::EmptyNodeId)));
}

#[test]
fn echo_returns_payload() {
    let mut n = Node::new();
    let rid = "n1".to_string();
    match n.process(Request::Echo { echo: "hello there".to_string() }, &rid).unwrap().reply {
        Reply::EchoOk { echo } => assert_eq!(echo, "hello there"),
        other => panic!("expected echo_ok, got {:?}", other),
    }
}

#[test]
fn generated_ids_are_distinct() {
    let mut n = Node::new();
    let rid = "n1".to_string();
    let mut ids: Vec<String> = Vec::new();
    for _ in 0..10_000 {
        match n.process(Request::Generate, &rid).unwrap().reply {
            Reply::GenerateOk { id } => {
                assert_eq!(id.len(), 36);
                ids.push(id);
            }
            other => panic!("expected generate_ok, got {:?}", other),
        }
    }
    ids.sort();
    for i in 1..ids.len() {
        assert_ne!(ids[i - 1], ids[i]);
    }
    assert_eq!(ids.len(), 10_000);
}

#[test]
fn broadcast_persists_and_fans_out() {
    let a = "/tmp/gossip_node_fanout_a".to_string();
    let mut n = Node::new();
    let node_ids = vec![a.clone(), "B".to_string(), "C".to_string()];
    let out = n.process(Request::Init { node_ids }, &a).unwrap();
    assert!(matches!(out.reply, Reply::Done));
    let out = n.process(Request::Broadcast { message: 42 }, &a).unwrap();
    assert!(matches!(out.reply, Reply::BroadcastOk));
    let mut dests: Vec<String> = Vec::new();
    for f in &out.forwards {
        assert_eq!(f.message, 42);
        dests.push(f.dest.clone());
    }
    dests.sort();
    // exactly two forwards, to B and C, never to the node itself
    assert_eq!(dests, vec!["B".to_string(), "C".to_string()]);
    assert_eq!(read_values(&mut n, &a), vec![42]);
}

#[test]
fn read_ok_backfills_store() {
    let a = "/tmp/gossip_node_backfill_a".to_string();
    let mut n = Node::new();
    let out = n.process(Request::Init { node_ids: vec![a.clone()] }, &a).unwrap();
    assert!(matches!(out.reply, Reply::Done));
    let out = n.process(Request::ReadOk { messages: vec![1, 2, 3] }, &a).unwrap();
    assert!(matches!(out.reply, Reply::Done));
    assert!(out.forwards.is_empty());
    let got = read_values(&mut n, &a);
    for v in [1u64, 2, 3] {
        assert!(got.contains(&v));
    }
}

#[test]
fn fanout_targets_all_registered_nodes() {
    let a = "/tmp/gossip_node_topology_a".to_string();
    let mut n = Node::new();
    let node_ids = vec![a.clone(), "B".to_string(), "C".to_string()];
    n.process(Request::Init { node_ids }, &a).unwrap();
    let topology = vec![
        TopologyEntry { node: a.clone(), peers: vec!["B".to_string()] },
        TopologyEntry { node: "B".to_string(), peers: vec![a.clone(), "C".to_string()] },
    ];
    let out = n.process(Request::Topology { topology }, &a).unwrap();
    assert!(matches!(out.reply, Reply::TopologyOk));
    let out = n.process(Request::Broadcast { message: 7 }, &a).unwrap();
    let mut dests: Vec<String> = Vec::new();
    for f in &out.forwards {
        dests.push(f.dest.clone());
    }
    dests.sort();
    // every registered node but the sender is targeted — including C,
    // which the topology never declared as the sender's neighbor
    assert_eq!(dests, vec!["B".to_string(), "C".to_string()]);
}

#[test]
fn broadcast_ok_is_ignored() {
    let mut n = Node::new();
    let rid = "n1".to_string();
    let out = n.process(Request::BroadcastOk, &rid).unwrap();
    assert!(matches!(out.reply, Reply::Done));
    assert!(out.forwards.is_empty());
}

#[test]
fn init_twice_keeps_store_and_peers() {
    let a = "/tmp/gossip_node_reinit_a".to_string();
    let mut n = Node::new();
    n.process(Request::Init { node_ids: vec![a.clone(), "B".to_string()] }, &a).unwrap();
    n.process(Request::Broadcast { message: 11 }, &a).unwrap();
    n.process(Request::Init { node_ids: vec![a.clone()] }, &a).unwrap();
    let got = read_values(&mut n, &a);
    assert!(got.contains(&11));
}
