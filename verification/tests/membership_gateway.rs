use fringe::membership::{MembershipTable, NodeRecord, NodeState};
use fringe::gateway::{ApiError, DataAction, http_status, parse_action, pick_node_port,
    apply_data_request, handle_get};
use fringe::store::VersionedStore;

fn b(s: &str) -> Vec<u8> {
    s.as_bytes().to_vec()
}

fn claim(id: &str, addr: &str, state: NodeState, incarnation: u64) -> NodeRecord {
    NodeRecord {
        id: b(id),
        address: b(addr),
        state,
        incarnation,
        last_change_at: 0,
        missed_probes: 0,
    }
}

fn state_of(t: &MembershipTable, id: &str) -> (NodeState, u64) {
    let nodes = t.nodes();
    for n in nodes.iter() {
        if n.id == b(id) {
            return (n.state, n.incarnation);
        }
    }
    panic!("node not found");
}

#[test]
fn two_missed_rounds_then_refutation_or_death() {
    // node X answers no probe for two consecutive rounds
    let mut t = MembershipTable::new(b("me"), b("127.0.0.1:8080"), 0);
    t.handle_gossip(&claim("x", "127.0.0.1:8081", NodeState::Alive, 0), 1);
    assert!(t.is_alive(&b("x")));

    t.note_probe(&b("x"), false, 10);
    assert!(t.is_alive(&b("x")), "one missed round is not yet a suspicion");
    t.note_probe(&b("x"), false, 20);
    let (st, inc) = state_of(&t, "x");
    assert_eq!(st, NodeState::Suspect);
    assert_eq!(inc, 0);
    assert!(!t.is_alive(&b("x")));

    // X refutes in time: alive again at a strictly higher incarnation
    let mut refuted = MembershipTable::new(b("me2"), b("a"), 0);
    refuted.handle_gossip(&claim("x", "127.0.0.1:8081", NodeState::Alive, 0), 1);
    refuted.note_probe(&b("x"), false, 10);
    refuted.note_probe(&b("x"), false, 20);
    assert_eq!(state_of(&refuted, "x").0, NodeState::Suspect);
    refuted.handle_gossip(&claim("x", "127.0.0.1:8081", NodeState::Alive, 1), 30);
    let (st2, inc2) = state_of(&refuted, "x");
    assert_eq!(st2, NodeState::Alive);
    assert_eq!(inc2, 1);

    // no refutation before the timeout: confirmed dead
    t.check_suspect(&b("x"), 19 + 30, 30);
    assert_eq!(state_of(&t, "x").0, NodeState::Suspect, "timeout not yet elapsed");
    t.check_suspect(&b("x"), 20 + 30, 30);
    assert_eq!(state_of(&t, "x").0, NodeState::Dead);
}

#[test]
fn gossip_merge_never_lowers_incarnation() {
    let mut t = MembershipTable::new(b("me"), b("a"), 0);
    t.handle_gossip(&claim("n", "addr", NodeState::Alive, 5), 1);
    assert_eq!(state_of(&t, "n"), (NodeState::Alive, 5));
    // a stale claim at a lower incarnation changes nothing
    t.handle_gossip(&claim("n", "addr", NodeState::Dead, 3), 2);
    assert_eq!(state_of(&t, "n"), (NodeState::Alive, 5));
    // a higher incarnation wins outright, whatever the state
    t.handle_gossip(&claim("n", "addr", NodeState::Suspect, 6), 3);
    assert_eq!(state_of(&t, "n"), (NodeState::Suspect, 6));
    t.handle_gossip(&claim("n", "addr", NodeState::Alive, 7), 4);
    assert_eq!(state_of(&t, "n"), (NodeState::Alive, 7));
}

#[test]
fn equal_incarnation_resolves_by_severity() {
    let mut t = MembershipTable::new(b("me"), b("a"), 0);
    t.handle_gossip(&claim("n", "addr", NodeState::Alive, 2), 1);
    // at the same incarnation the more severe claim is trusted
    t.handle_gossip(&claim("n", "addr", NodeState::Suspect, 2), 2);
    assert_eq!(state_of(&t, "n"), (NodeState::Suspect, 2));
    t.handle_gossip(&claim("n", "addr", NodeState::Dead, 2), 3);
    assert_eq!(state_of(&t, "n"), (NodeState::Dead, 2));
    // and the less severe one is ignored
    t.handle_gossip(&claim("n", "addr", NodeState::Alive, 2), 4);
    assert_eq!(state_of(&t, "n"), (NodeState::Dead, 2));
}

#[test]
fn refutation_strictly_increases_own_incarnation() {
    let mut t = MembershipTable::new(b("me"), b("addr"), 0);
    assert_eq!(state_of(&t, "me"), (NodeState::Alive, 0));
    // someone gossips a suspicion about the local node
    t.handle_gossip(&claim("me", "addr", NodeState::Suspect, 0), 5);
    assert_eq!(state_of(&t, "me").0, NodeState::Suspect);
    t.refute(6);
    assert_eq!(state_of(&t, "me"), (NodeState::Alive, 1));
    t.refute(7);
    assert_eq!(state_of(&t, "me"), (NodeState::Alive, 2));
}

#[test]
fn leave_is_announced_at_higher_incarnation() {
    let mut t = MembershipTable::new(b("me"), b("addr"), 0);
    t.leave(3);
    assert_eq!(state_of(&t, "me"), (NodeState::Left, 1));
    assert!(!t.is_alive(&b("me")));
}

#[test]
fn cluster_status_counts_alive_nodes() {
    let mut t = MembershipTable::new(b("me"), b("a0"), 0);
    t.handle_gossip(&claim("n1", "a1", NodeState::Alive, 0), 1);
    t.handle_gossip(&claim("n2", "a2", NodeState::Suspect, 0), 2);
    t.handle_gossip(&claim("n3", "a3", NodeState::Dead, 1), 3);
    t.handle_gossip(&claim("n4", "a4", NodeState::Alive, 2), 4);
    let c = t.cluster_status();
    assert_eq!(c.total_nodes, 5);
    assert_eq!(c.alive_nodes, 3);
    assert!(t.is_alive(&b("n1")));
    assert!(!t.is_alive(&b("n2")));
    assert!(!t.is_alive(&b("absent")));
}

#[test]
fn eviction_collects_dead_and_departed_after_grace() {
    let mut t = MembershipTable::new(b("me"), b("a0"), 0);
    t.handle_gossip(&claim("n1", "a1", NodeState::Alive, 0), 10);
    t.handle_gossip(&claim("n2", "a2", NodeState::Dead, 0), 10);
    t.handle_gossip(&claim("n3", "a3", NodeState::Left, 0), 40);
    t.handle_gossip(&claim("n4", "a4", NodeState::Suspect, 0), 10);
    assert_eq!(t.cluster_status().total_nodes, 5);
    // n2's death is grace-window old, n3's departure is still fresh
    t.evict_expired(60, 50);
    assert_eq!(t.cluster_status().total_nodes, 4);
    assert_eq!(state_of(&t, "n1"), (NodeState::Alive, 0));
    assert_eq!(state_of(&t, "n3"), (NodeState::Left, 0));
    assert_eq!(state_of(&t, "n4"), (NodeState::Suspect, 0));
    // later the departed record expires too; suspects are never collected
    t.evict_expired(100, 50);
    assert_eq!(t.cluster_status().total_nodes, 3);
    assert_eq!(state_of(&t, "n4"), (NodeState::Suspect, 0));
}

#[test]
fn probe_target_follows_the_draw() {
    let mut t = MembershipTable::new(b("me"), b("a0"), 0);
    t.handle_gossip(&claim("n1", "a1", NodeState::Alive, 0), 1);
    t.handle_gossip(&claim("n2", "a2", NodeState::Dead, 0), 2);
    t.handle_gossip(&claim("n3", "a3", NodeState::Alive, 0), 3);
    assert_eq!(t.count_alive_peers(), 2);
    // in table order the targets are n1 then n3; the draw wraps around them
    let first = t.pick_probe_target(0).unwrap();
    let second = t.pick_probe_target(1).unwrap();
    assert_eq!(t.nodes()[first].id, b("n1"));
    assert_eq!(t.nodes()[second].id, b("n3"));
    assert_eq!(t.pick_probe_target(2), Some(first));
    assert_eq!(t.pick_probe_target(3), Some(second));
}

#[test]
fn probe_target_is_an_alive_peer() {
    let mut t = MembershipTable::new(b("me"), b("a0"), 0);
    assert_eq!(t.count_alive_peers(), 0);
    assert!(t.pick_probe_target(7).is_none());
    t.handle_gossip(&claim("n1", "a1", NodeState::Alive, 0), 1);
    t.handle_gossip(&claim("n2", "a2", NodeState::Suspect, 0), 2);
    t.handle_gossip(&claim("n3", "a3", NodeState::Alive, 0), 3);
    assert_eq!(t.count_alive_peers(), 2);
    for r in 0..8 {
        let i = t.pick_probe_target(r).expect("alive peers exist");
        let n = &t.nodes()[i];
        assert_eq!(n.state, NodeState::Alive);
        assert_ne!(n.id, b("me"));
    }
}

#[test]
fn http_status_mapping() {
    assert_eq!(http_status(ApiError::NotFound), 404);
    assert_eq!(http_status(ApiError::Timeout), 504);
    assert_eq!(http_status(ApiError::NetworkError), 502);
}

#[test]
fn action_tokens_parse() {
    assert_eq!(parse_action(&b("add")), Some(DataAction::Add));
    assert_eq!(parse_action(&b("delete")), Some(DataAction::Delete));
    assert_eq!(parse_action(&b("Add")), None);
    assert_eq!(parse_action(&b("")), None);
    assert_eq!(parse_action(&b("remove")), None);
}

#[test]
fn data_request_dispatch() {
    let mut store = VersionedStore::new();
    let v = apply_data_request(&mut store, DataAction::Add, b("k"), b("v"), 1);
    assert_eq!(v, 1);
    assert_eq!(store.get(&b("k")).unwrap().value, b("v"));
    let v2 = apply_data_request(&mut store, DataAction::Delete, b("k"), Vec::new(), 2);
    assert_eq!(v2, 2);
    assert!(store.get(&b("k")).is_none());
}

#[test]
fn reads_answer_not_found_for_absent_and_tombstoned_keys() {
    let mut store = VersionedStore::new();
    store.put(b("k"), b("v"), 1);
    match handle_get(&store, &b("k")) {
        Ok(rec) => assert_eq!(rec.value, b("v")),
        Err(_) => panic!("live key must be served"),
    }
    assert!(matches!(handle_get(&store, &b("missing")), Err(ApiError::NotFound)));
    store.delete(b("k"), 2);
    assert!(matches!(handle_get(&store, &b("k")), Err(ApiError::NotFound)));
}

#[test]
fn port_pick_stays_in_range() {
    assert_eq!(pick_node_port(0), 8080);
    assert_eq!(pick_node_port(999), 9079);
    assert_eq!(pick_node_port(1000), 8080);
    assert_eq!(pick_node_port(65535), 8080 + (65535 % 1000));
}
