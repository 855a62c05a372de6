use coordination::codec::encode;
use coordination::lamport::LamportNode;
use coordination::msg::Message;

fn resources() -> Vec<Vec<u8>> {
    vec![b"A".to_vec(), b"B".to_vec()]
}

fn res_a() -> Vec<u8> {
    b"A".to_vec()
}

fn res_b() -> Vec<u8> {
    b"B".to_vec()
}

fn peers_of(id: u64, n: u64) -> Vec<u64> {
    (0..n).filter(|p| *p != id).collect()
}

fn admitted_count(nodes: &[LamportNode], r: &Vec<u8>) -> usize {
    nodes.iter().filter(|n| n.can_enter(r)).count()
}

#[test]
fn clock_update_rule_is_max_plus_one() {
    let mut n = LamportNode::new(0, peers_of(0, 4), &resources());
    assert_eq!(n.clock, 0);
    n.on_request(1, 5, &res_a());
    assert_eq!(n.clock, 6);
    let mut last = n.clock;
    for (from, ts) in [(2u64, 3u64), (3, 10), (1, 2)] {
        n.on_request(from, ts, &res_a());
        assert!(n.clock >= ts + 1);
        assert!(n.clock > last);
        last = n.clock;
    }
    assert_eq!(n.clock, 12);
}

#[test]
fn request_is_acknowledged_unconditionally_for_known_peers() {
    let mut n = LamportNode::new(0, peers_of(0, 4), &resources());
    // Even with an earlier pending request of its own, the node replies
    // immediately: this implementation never defers acknowledgments.
    n.broadcast_request(&res_a());
    let reply = n.on_request(1, 9, &res_a());
    assert_eq!(reply, Some(Message::Reply { from: 0, resource: res_a() }));
    // A request from a node outside the peer list is enqueued but not
    // acknowledged.
    let reply = n.on_request(9, 9, &res_a());
    assert_eq!(reply, None);
    assert_eq!(n.queues[0].entries.len(), 3);
}

#[test]
fn unknown_resource_request_is_dropped_but_acknowledged() {
    let mut n = LamportNode::new(0, peers_of(0, 4), &resources());
    let reply = n.on_request(1, 1, &b"C".to_vec());
    assert_eq!(reply, Some(Message::Reply { from: 0, resource: b"C".to_vec() }));
    assert_eq!(n.clock, 2);
    assert_eq!(n.queues.len(), 2);
    assert!(n.queues.iter().all(|q| q.entries.is_empty()));
}

#[test]
fn reply_sets_deduplicate_and_grow_for_unknown_resources() {
    let mut n = LamportNode::new(0, peers_of(0, 4), &resources());
    n.on_reply(1, &res_a());
    n.on_reply(1, &res_a());
    n.on_reply(2, &res_a());
    assert_eq!(n.replies[0].nodes, vec![1, 2]);
    // Replies carry no timestamp: the clock is untouched.
    assert_eq!(n.clock, 0);
    // Unlike the queues, the reply list gains an entry for a resource it
    // has never seen.
    n.on_reply(3, &b"C".to_vec());
    assert_eq!(n.replies.len(), 3);
    assert_eq!(n.replies[2].resource, b"C".to_vec());
    assert_eq!(n.replies[2].nodes, vec![3]);
}

#[test]
fn broadcast_enqueues_own_entry_and_clears_replies() {
    let mut n = LamportNode::new(2, peers_of(2, 4), &resources());
    n.on_reply(1, &res_a());
    let msg = n.broadcast_request(&res_a());
    assert_eq!(msg, Message::Request { from: 2, ts: 1, resource: res_a() });
    assert_eq!(n.clock, 1);
    assert_eq!(n.queues[0].entries, vec![(1, 2)]);
    assert_eq!(n.replies[0].nodes.len(), 0);
    assert_eq!(n.queues[1].entries.len(), 0);
}

#[test]
fn admission_needs_minimum_entry_and_every_peer_reply() {
    let mut n = LamportNode::new(0, peers_of(0, 4), &resources());
    assert!(!n.can_enter(&res_a()));
    n.broadcast_request(&res_a());
    assert!(!n.can_enter(&res_a()));
    n.on_reply(1, &res_a());
    n.on_reply(2, &res_a());
    assert!(!n.can_enter(&res_a()));
    n.on_reply(3, &res_a());
    assert!(n.can_enter(&res_a()));
    // Replies for one resource never admit another.
    assert!(!n.can_enter(&res_b()));
}

#[test]
fn release_pops_own_head_and_clears_replies() {
    let mut n = LamportNode::new(0, peers_of(0, 4), &resources());
    n.broadcast_request(&res_a());
    n.on_request(1, 5, &res_a());
    for p in [1u64, 2, 3] {
        n.on_reply(p, &res_a());
    }
    assert!(n.can_enter(&res_a()));
    n.release(&res_a());
    assert_eq!(n.queues[0].entries, vec![(5, 1)]);
    assert_eq!(n.replies[0].nodes.len(), 0);
    assert!(!n.can_enter(&res_a()));
}

#[test]
fn defensive_release_removes_own_entries_anywhere() {
    let mut n = LamportNode::new(0, peers_of(0, 4), &resources());
    n.on_request(9, 1, &res_a());
    n.broadcast_request(&res_a());
    n.broadcast_request(&res_a());
    assert_eq!(n.queues[0].entries.len(), 3);
    // The head belongs to node 9, so every entry of node 0 is scanned
    // out wherever it stands.
    n.release(&res_a());
    assert_eq!(n.queues[0].entries, vec![(1, 9)]);
}

#[test]
fn scenario_staggered_requests_admit_one_at_a_time() {
    // Four nodes request resource A in a staggered order; at every
    // stage at most one node passes the admission check per resource.
    let mut nodes: Vec<LamportNode> = (0..4)
        .map(|id| LamportNode::new(id, peers_of(id, 4), &resources()))
        .collect();

    // Node 0 requests A first and all replies arrive.
    let msg = nodes[0].broadcast_request(&res_a());
    let (ts0, r0) = match msg {
        Message::Request { ts, resource, .. } => (ts, resource),
        _ => unreachable!(),
    };
    for i in 1..4 {
        let reply = nodes[i].on_request(0, ts0, &r0);
        if let Some(Message::Reply { from, resource }) = reply {
            nodes[0].on_reply(from, &resource);
        }
    }
    assert!(nodes[0].can_enter(&res_a()));
    assert_eq!(admitted_count(&nodes, &res_a()), 1);

    // Node 1 requests A while node 0 still holds it.
    let msg = nodes[1].broadcast_request(&res_a());
    let (ts1, r1) = match msg {
        Message::Request { ts, resource, .. } => (ts, resource),
        _ => unreachable!(),
    };
    for i in [0usize, 2, 3] {
        let reply = nodes[i].on_request(1, ts1, &r1);
        if let Some(Message::Reply { from, resource }) = reply {
            nodes[1].on_reply(from, &resource);
        }
    }
    // Node 1 holds every acknowledgment, yet node 0's earlier entry is
    // the queue minimum everywhere: node 1 is not admitted.
    assert!(nodes[0].can_enter(&res_a()));
    assert!(!nodes[1].can_enter(&res_a()));
    assert_eq!(admitted_count(&nodes, &res_a()), 1);

    // Node 0 leaves the critical section. The release is local: the
    // other queues keep node 0's entry (the documented sharp edge), so
    // nobody is admitted for A afterwards.
    nodes[0].release(&res_a());
    assert_eq!(admitted_count(&nodes, &res_a()), 0);

    // Resource B is independent: node 2 requests it and is admitted
    // while A stays contended.
    let msg = nodes[2].broadcast_request(&res_b());
    let (ts2, r2) = match msg {
        Message::Request { ts, resource, .. } => (ts, resource),
        _ => unreachable!(),
    };
    for i in [0usize, 1, 3] {
        let reply = nodes[i].on_request(2, ts2, &r2);
        if let Some(Message::Reply { from, resource }) = reply {
            nodes[2].on_reply(from, &resource);
        }
    }
    assert!(nodes[2].can_enter(&res_b()));
    assert_eq!(admitted_count(&nodes, &res_b()), 1);
    assert_eq!(admitted_count(&nodes, &res_a()), 0);
}

#[test]
fn abandoned_request_leaves_its_entry_enqueued() {
    // A node whose wait times out never removes its queue entry: the
    // entry stays pending, a known sharp edge of this design.
    let mut n = LamportNode::new(3, peers_of(3, 4), &resources());
    n.broadcast_request(&res_a());
    // No replies ever arrive; the attempt is abandoned by simply never
    // entering. The entry remains.
    assert!(!n.can_enter(&res_a()));
    assert_eq!(n.queues[0].entries, vec![(1, 3)]);
}

#[test]
fn handle_routes_requests_and_replies() {
    let mut n = LamportNode::new(0, peers_of(0, 4), &resources());
    let body = encode(&Message::Request { from: 1, ts: 5, resource: res_a() });
    let out = n.handle(&body);
    assert_eq!(out, Some((1, Message::Reply { from: 0, resource: res_a() })));
    assert_eq!(n.clock, 6);
    assert_eq!(n.queues[0].entries, vec![(5, 1)]);

    let body = encode(&Message::Reply { from: 2, resource: res_a() });
    assert_eq!(n.handle(&body), None);
    assert_eq!(n.replies[0].nodes, vec![2]);
}

#[test]
fn ties_between_equal_timestamps_break_by_node_id() {
    // Two requests with the same timestamp: the smaller node id is the
    // queue minimum, so only that node can be admitted.
    let mut n = LamportNode::new(0, vec![2], &resources());
    n.on_request(2, 5, &res_a());
    n.queues[0].entries.push((5, 0));
    n.on_reply(2, &res_a());
    assert!(n.can_enter(&res_a()));
    let mut m = LamportNode::new(2, vec![0], &resources());
    m.on_request(0, 5, &res_a());
    m.queues[0].entries.push((5, 2));
    m.on_reply(0, &res_a());
    assert!(!m.can_enter(&res_a()));
}

#[test]
fn handle_drops_a_request_whose_timestamp_cannot_advance() {
    let mut n = LamportNode::new(0, peers_of(0, 4), &resources());
    let body = encode(&Message::Request { from: 1, ts: u64::MAX, resource: res_a() });
    assert_eq!(n.handle(&body), None);
    assert_eq!(n.clock, 0);
    assert!(n.queues.iter().all(|q| q.entries.is_empty()));
}

#[test]
fn handle_ignores_malformed_and_foreign_requests() {
    let mut n = LamportNode::new(0, peers_of(0, 4), &resources());
    assert_eq!(n.handle(&vec![0u8]), None);
    assert_eq!(n.handle(&Vec::new()), None);
    let body = encode(&Message::Order { from: 1, value: coordination::msg::Value::Attack });
    assert_eq!(n.handle(&body), None);
    assert_eq!(n.clock, 0);
    assert!(n.queues.iter().all(|q| q.entries.is_empty()));
}
