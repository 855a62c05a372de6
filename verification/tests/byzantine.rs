use coordination::byzantine::ByzNode;
use coordination::codec::encode;
use coordination::msg::{invert, Message, Value};

#[test]
fn invert_flips_the_binary_domain() {
    assert_eq!(invert(Value::Attack), Value::Retreat);
    assert_eq!(invert(Value::Retreat), Value::Attack);
}

#[test]
fn commander_fans_out_one_order_per_peer() {
    let commander = ByzNode::new(0, vec![1, 2], false);
    let orders = vec![(0, Value::Attack), (1, Value::Attack), (2, Value::Attack)];
    let out = commander.commander_send(&orders);
    assert_eq!(out.len(), 2);
    assert_eq!(out[0], (1, Message::Order { from: 0, value: Value::Attack }));
    assert_eq!(out[1], (2, Message::Order { from: 0, value: Value::Attack }));
}

#[test]
fn commander_defaults_to_retreat_for_unlisted_peers() {
    let commander = ByzNode::new(0, vec![1, 2], false);
    let orders = vec![(1, Value::Attack)];
    let out = commander.commander_send(&orders);
    assert_eq!(out[0].1, Message::Order { from: 0, value: Value::Attack });
    assert_eq!(out[1].1, Message::Order { from: 0, value: Value::Retreat });
}

#[test]
fn honest_lieutenant_relays_truthfully() {
    let mut n = ByzNode::new(1, vec![0, 2], false);
    let out = n.on_order(0, Value::Attack);
    assert_eq!(n.commander_order, Some(Value::Attack));
    assert_eq!(n.forwarded, vec![(1, Value::Attack)]);
    assert_eq!(out.len(), 2);
    assert_eq!(out[0], (0, Message::Forward { from: 1, value: Value::Attack }));
    assert_eq!(out[1], (2, Message::Forward { from: 1, value: Value::Attack }));
}

#[test]
fn faulty_lieutenant_inverts_but_never_lies_about_identity() {
    let mut n = ByzNode::new(2, vec![0, 1], true);
    let out = n.on_order(0, Value::Attack);
    assert_eq!(n.commander_order, Some(Value::Attack));
    assert_eq!(n.forwarded, vec![(2, Value::Retreat)]);
    for (_, m) in &out {
        assert_eq!(*m, Message::Forward { from: 2, value: Value::Retreat });
    }
}

#[test]
fn decide_without_commander_order_is_no_decision() {
    let mut n = ByzNode::new(1, vec![0, 2], false);
    assert_eq!(n.decide(), None);
    n.on_forward(2, Value::Attack);
    assert_eq!(n.decide(), None);
}

#[test]
fn decide_breaks_ties_toward_the_commander_order() {
    let mut n = ByzNode::new(1, vec![0, 2], false);
    n.commander_order = Some(Value::Attack);
    n.on_forward(2, Value::Retreat);
    assert_eq!(n.tally(), (1, 1));
    assert_eq!(n.decide(), Some(Value::Attack));
}

#[test]
fn forward_overwrites_an_earlier_relay_from_the_same_node() {
    let mut n = ByzNode::new(1, vec![0, 2], false);
    n.on_forward(2, Value::Attack);
    n.on_forward(2, Value::Retreat);
    assert_eq!(n.forwarded, vec![(2, Value::Retreat)]);
}

#[test]
fn scenario_commander_attack_one_faulty() {
    // Nodes: 0 = commander, 1 = honest, 2 = faulty. Commander sends
    // ATTACK to all; node 1 must see two ATTACK votes against one
    // RETREAT and decide ATTACK.
    let commander = ByzNode::new(0, vec![1, 2], false);
    let mut n1 = ByzNode::new(1, vec![0, 2], false);
    let mut n2 = ByzNode::new(2, vec![0, 1], true);

    let mut orders = Vec::new();
    for id in [0u64, 1, 2] {
        orders.push((id, Value::Attack));
    }
    let sent = commander.commander_send(&orders);
    assert_eq!(sent.len(), 2);

    let fwd1 = n1.on_order(0, Value::Attack);
    let fwd2 = n2.on_order(0, Value::Attack);
    for (to, m) in fwd1 {
        if to == 2 {
            if let Message::Forward { from, value } = m {
                n2.on_forward(from, value);
            }
        }
    }
    for (to, m) in fwd2 {
        if to == 1 {
            if let Message::Forward { from, value } = m {
                n1.on_forward(from, value);
            }
        }
    }

    assert_eq!(n1.tally(), (2, 1));
    assert_eq!(n1.decide(), Some(Value::Attack));
    // The commander takes no part in its own decision logic: it never
    // receives an order, so it reaches no decision.
    assert_eq!(commander.decide(), None);
    // The faulty node lied to others, not to itself about the tally it
    // holds: commander ATTACK, own RETREAT, node 1's ATTACK.
    assert_eq!(n2.tally(), (2, 1));
}

#[test]
fn handle_routes_orders_and_forwards() {
    let mut n = ByzNode::new(1, vec![0, 2], false);
    let out = n.handle(&encode(&Message::Order { from: 0, value: Value::Attack }));
    assert_eq!(out.len(), 2);
    assert_eq!(n.commander_order, Some(Value::Attack));
    let out = n.handle(&encode(&Message::Forward { from: 2, value: Value::Retreat }));
    assert_eq!(out.len(), 0);
    assert_eq!(n.forwarded, vec![(1, Value::Attack), (2, Value::Retreat)]);
    assert_eq!(n.decide(), Some(Value::Attack));
}

#[test]
fn handle_ignores_malformed_and_foreign_bodies() {
    let mut n = ByzNode::new(1, vec![0, 2], false);
    assert_eq!(n.handle(&vec![255u8, 0, 1]).len(), 0);
    let req = Message::Request { from: 0, ts: 4, resource: b"A".to_vec() };
    assert_eq!(n.handle(&encode(&req)).len(), 0);
    assert_eq!(n.commander_order, None);
    assert_eq!(n.forwarded, Vec::<(u64, Value)>::new());
}
