//! Single-round Byzantine-resilient command agreement (oral messages,
//! one faulty participant tolerated). A commander fans an `Order` out to
//! every lieutenant; each lieutenant relays what it received — inverted,
//! if the lieutenant is faulty — and finally decides by majority over the
//! commander's order plus every relayed value. The protocol is single
//! shot: state is never reset.

use vstd::prelude::*;

use crate::msg::{spec_invert, invert, Message, MsgV, Value};

verus! {

/// Votes for `v` among the relayed values (one vote per relaying node).
pub open spec fn votes_for(fwd: Seq<(u64, Value)>, v: Value) -> nat
    decreases fwd.len(),
{
    if fwd.len() == 0 {
        0
    } else {
        votes_for(fwd.drop_last(), v) + if fwd.last().1 == v {
            1nat
        } else {
            0nat
        }
    }
}

/// Total votes for `v`: the relayed values plus the commander's own order.
pub open spec fn total_votes(commander: Value, fwd: Seq<(u64, Value)>, v: Value) -> nat {
    votes_for(fwd, v) + if commander == v {
        1nat
    } else {
        0nat
    }
}

/// The decision once a commander order `commander` is on record: the value
/// with the strictly higher tally; ties go to the commander's order, which
/// fixes the tie-break deterministically.
pub open spec fn spec_decide(commander: Value, fwd: Seq<(u64, Value)>) -> Value {
    let a = total_votes(commander, fwd, Value::Attack);
    let r = total_votes(commander, fwd, Value::Retreat);
    if a > r {
        Value::Attack
    } else if r > a {
        Value::Retreat
    } else {
        commander
    }
}

/// First value recorded under key `k`, if any; with unique keys, the value
/// under `k`.
pub open spec fn assoc_lookup(s: Seq<(u64, Value)>, k: u64) -> Option<Value>
    decreases s.len(),
{
    if s.len() == 0 {
        None
    } else if s[0].0 == k {
        Some(s[0].1)
    } else {
        assoc_lookup(s.drop_first(), k)
    }
}

/// The order a commander sends to peer `k`: the value chosen for `k`, or
/// `Retreat` where none was chosen.
pub open spec fn order_for(orders: Seq<(u64, Value)>, k: u64) -> Value {
    match assoc_lookup(orders, k) {
        Some(v) => v,
        None => Value::Retreat,
    }
}

/// One participant of the agreement protocol.
///
/// `forwarded` records, per node, the value that node relayed (the node's
/// own relay included); `commander_order` is what the commander sent here;
/// `decided` is filled by the driver once `decide` returns a value.
pub struct ByzNode {
    pub id: u64,
    pub peers: Vec<u64>,
    pub is_byzantine: bool,
    pub commander_order: Option<Value>,
    pub forwarded: Vec<(u64, Value)>,
    pub decided: Option<Value>,
}

impl ByzNode {
    /// Well-formed state: peers exclude this node and repeat nobody, and
    /// each node has at most one recorded relay.
    pub open spec fn wf(self) -> bool {
        &&& self.peers@.no_duplicates()
        &&& !self.peers@.contains(self.id)
        &&& forall|i: int, j: int|
            0 <= i < j < self.forwarded@.len() ==> #[trigger] self.forwarded@[i].0
                != #[trigger] self.forwarded@[j].0
    }

    pub fn new(id: u64, peers: Vec<u64>, is_byzantine: bool) -> (n: ByzNode)
        requires
            peers@.no_duplicates(),
            !peers@.contains(id),
        ensures
            n.wf(),
            n.id == id,
            n.peers == peers,
            n.is_byzantine == is_byzantine,
            n.commander_order is None,
            n.forwarded@ == Seq::<(u64, Value)>::empty(),
            n.decided is None,
    {
        ByzNode {
            id,
            peers,
            is_byzantine,
            commander_order: None,
            forwarded: Vec::new(),
            decided: None,
        }
    }

    /// The commander's one-shot fan-out: one `Order` per peer, carrying
    /// the value chosen for that peer in `orders` (default `Retreat`).
    /// The commander takes no further part in the decision logic.
    pub fn commander_send(&self, orders: &Vec<(u64, Value)>) -> (out: Vec<(u64, Message)>)
        ensures
            out@.len() == self.peers@.len(),
            forall|i: int| 0 <= i < out@.len() ==> (#[trigger] out@[i]).0 == self.peers@[i],
            forall|i: int|
                0 <= i < out@.len() ==> (#[trigger] out@[i]).1@
                    == (MsgV::Order { from: self.id, value: order_for(orders@, self.peers@[i]) }),
    {
        let mut out: Vec<(u64, Message)> = Vec::new();
        let mut i: usize = 0;
        while i < self.peers.len()
            invariant
                i <= self.peers@.len(),
                out@.len() == i,
                forall|j: int| 0 <= j < i ==> (#[trigger] out@[j]).0 == self.peers@[j],
                forall|j: int|
                    0 <= j < i ==> (#[trigger] out@[j]).1@
                        == (MsgV::Order { from: self.id, value: order_for(orders@, self.peers@[j]) }),
            decreases self.peers@.len() - i,
        {
            let peer = self.peers[i];
            let value = lookup_or_retreat(orders, peer);
            out.push((peer, Message::Order { from: self.id, value }));
            proof {
                assert(out@[i as int] == (peer, Message::Order { from: self.id, value }));
            }
            i = i + 1;
        }
        out
    }

    /// Record the commander's order and immediately relay it through
    /// `forward_order`.
    pub fn on_order(&mut self, from: u64, value: Value) -> (out: Vec<(u64, Message)>)
        requires
            old(self).wf(),
        ensures
            final(self).wf(),
            final(self).id == old(self).id,
            final(self).peers == old(self).peers,
            final(self).is_byzantine == old(self).is_byzantine,
            final(self).decided == old(self).decided,
            final(self).commander_order == Some(value),
            recorded(
                old(self).forwarded@,
                final(self).forwarded@,
                old(self).id,
                if old(self).is_byzantine {
                    spec_invert(value)
                } else {
                    value
                },
            ),
            forward_fanout(
                out@,
                old(self).peers@,
                old(self).id,
                if old(self).is_byzantine {
                    spec_invert(value)
                } else {
                    value
                },
            ),
    {
        self.commander_order = Some(value);
        self.forward_order(value)
    }

    /// Relay a received command: the value actually sent is the inverse
    /// of the received one when this node is faulty — the fault model is
    /// equivocation about the value, never about identity, so `from` in
    /// the fan-out is always truthful. The node records its own relay in
    /// its own `forwarded` map before sending.
    pub fn forward_order(&mut self, value: Value) -> (out: Vec<(u64, Message)>)
        requires
            old(self).wf(),
        ensures
            final(self).wf(),
            final(self).id == old(self).id,
            final(self).peers == old(self).peers,
            final(self).is_byzantine == old(self).is_byzantine,
            final(self).decided == old(self).decided,
            final(self).commander_order == old(self).commander_order,
            recorded(
                old(self).forwarded@,
                final(self).forwarded@,
                old(self).id,
                if old(self).is_byzantine {
                    spec_invert(value)
                } else {
                    value
                },
            ),
            forward_fanout(
                out@,
                old(self).peers@,
                old(self).id,
                if old(self).is_byzantine {
                    spec_invert(value)
                } else {
                    value
                },
            ),
    {
        let to_send = if self.is_byzantine {
            invert(value)
        } else {
            value
        };
        let my_id = self.id;
        record(&mut self.forwarded, my_id, to_send);
        let mut out: Vec<(u64, Message)> = Vec::new();
        let mut i: usize = 0;
        while i < self.peers.len()
            invariant
                i <= self.peers@.len(),
                out@.len() == i,
                forall|j: int| 0 <= j < i ==> (#[trigger] out@[j]).0 == self.peers@[j],
                forall|j: int|
                    0 <= j < i ==> (#[trigger] out@[j]).1@
                        == (MsgV::Forward { from: self.id, value: to_send }),
                self.id == old(self).id,
                self.peers == old(self).peers,
            decreases self.peers@.len() - i,
        {
            let peer = self.peers[i];
            out.push((peer, Message::Forward { from: self.id, value: to_send }));
            proof {
                assert(out@[i as int] == (peer, Message::Forward { from: self.id, value: to_send }));
            }
            i = i + 1;
        }
        out
    }

    /// Record what another lieutenant relayed. Forwards are never
    /// relayed further: the round is single.
    pub fn on_forward(&mut self, from: u64, value: Value)
        requires
            old(self).wf(),
        ensures
            final(self).wf(),
            final(self).id == old(self).id,
            final(self).peers == old(self).peers,
            final(self).is_byzantine == old(self).is_byzantine,
            final(self).decided == old(self).decided,
            final(self).commander_order == old(self).commander_order,
            recorded(old(self).forwarded@, final(self).forwarded@, from, value),
    {
        record(&mut self.forwarded, from, value);
    }

    /// Tally of the round: total votes for `Attack` and for `Retreat`,
    /// counting the commander's order (if one arrived) and every recorded
    /// relay once.
    #[verifier::loop_isolation(false)]
    pub fn tally(&self) -> (t: (usize, usize))
        requires
            self.forwarded@.len() < usize::MAX,
        ensures
            match self.commander_order {
                Some(cv) => t.0 == total_votes(cv, self.forwarded@, Value::Attack) && t.1
                    == total_votes(cv, self.forwarded@, Value::Retreat),
                None => t.0 == votes_for(self.forwarded@, Value::Attack) && t.1 == votes_for(
                    self.forwarded@,
                    Value::Retreat,
                ),
            },
    {
        let mut attack: usize = 0;
        let mut retreat: usize = 0;
        match self.commander_order {
            Some(Value::Attack) => {
                attack = 1;
            },
            Some(Value::Retreat) => {
                retreat = 1;
            },
            None => {},
        }
        let mut i: usize = 0;
        while i < self.forwarded.len()
            invariant
                i <= self.forwarded@.len(),
                attack == votes_for(self.forwarded@.subrange(0, i as int), Value::Attack) + (
                match self.commander_order {
                    Some(Value::Attack) => 1int,
                    _ => 0int,
                }),
                retreat == votes_for(self.forwarded@.subrange(0, i as int), Value::Retreat) + (
                match self.commander_order {
                    Some(Value::Retreat) => 1int,
                    _ => 0int,
                }),
                attack + retreat <= i + 1,
            decreases self.forwarded@.len() - i,
        {
            proof {
                assert(self.forwarded@.subrange(0, i + 1 as int).drop_last() =~= self
                    .forwarded@.subrange(0, i as int));
                assert(self.forwarded@.subrange(0, i + 1 as int).last() == self.forwarded@[i as int]);
            }
            match self.forwarded[i].1 {
                Value::Attack => {
                    attack = attack + 1;
                },
                Value::Retreat => {
                    retreat = retreat + 1;
                },
            }
            i = i + 1;
        }
        proof {
            assert(self.forwarded@.subrange(0, self.forwarded@.len() as int) =~= self.forwarded@);
        }
        (attack, retreat)
    }

    /// The decision routine: `None` while no commander order ever arrived
    /// (a permanent no-decision — the protocol does not retry), else the
    /// value with the strictly higher tally, ties going to the
    /// commander's order.
    pub fn decide(&self) -> (r: Option<Value>)
        requires
            self.forwarded@.len() < usize::MAX,
        ensures
            match self.commander_order {
                None => r is None,
                Some(cv) => r == Some(spec_decide(cv, self.forwarded@)),
            },
    {
        let cv = match self.commander_order {
            None => {
                return None;
            },
            Some(cv) => cv,
        };
        let (attack, retreat) = self.tally();
        if attack > retreat {
            Some(Value::Attack)
        } else if retreat > attack {
            Some(Value::Retreat)
        } else {
            Some(cv)
        }
    }

    /// Decode one inbound body and route it to the matching handler: an
    /// `Order` records the command and yields the relay fan-out, a
    /// `Forward` records the relaying peer's value, and anything else —
    /// a malformed body or a mutual-exclusion message — is acknowledged
    /// at the transport and otherwise ignored.
    pub fn handle(&mut self, bytes: &Vec<u8>) -> (out: Vec<(u64, Message)>)
        requires
            old(self).wf(),
        ensures
            final(self).wf(),
            final(self).id == old(self).id,
            final(self).peers == old(self).peers,
            final(self).is_byzantine == old(self).is_byzantine,
            final(self).decided == old(self).decided,
            match crate::codec::spec_decode(bytes@) {
                Some(MsgV::Order { from, value }) => {
                    &&& final(self).commander_order == Some(value)
                    &&& recorded(
                        old(self).forwarded@,
                        final(self).forwarded@,
                        old(self).id,
                        if old(self).is_byzantine {
                            spec_invert(value)
                        } else {
                            value
                        },
                    )
                    &&& forward_fanout(
                        out@,
                        old(self).peers@,
                        old(self).id,
                        if old(self).is_byzantine {
                            spec_invert(value)
                        } else {
                            value
                        },
                    )
                },
                Some(MsgV::Forward { from, value }) => {
                    &&& final(self).commander_order == old(self).commander_order
                    &&& recorded(old(self).forwarded@, final(self).forwarded@, from, value)
                    &&& out@.len() == 0
                },
                _ => *final(self) == *old(self) && out@.len() == 0,
            },
    {
        let msg = match crate::codec::decode(bytes) {
            None => {
                return Vec::new();
            },
            Some(m) => m,
        };
        match msg {
            Message::Order { from, value } => self.on_order(from, value),
            Message::Forward { from, value } => {
                self.on_forward(from, value);
                Vec::new()
            },
            _ => Vec::new(),
        }
    }
}

/// Whether some node is already recorded under key `k`.
pub open spec fn has_key(s: Seq<(u64, Value)>, k: u64) -> bool {
    exists|i: int| 0 <= i < s.len() && (#[trigger] s[i]).0 == k
}

/// What recording relay `v` of node `k` does to the record: an existing
/// entry of `k` is overwritten in place, otherwise an entry is appended.
/// With unique keys these clauses pin the new record completely.
pub open spec fn recorded(pre: Seq<(u64, Value)>, post: Seq<(u64, Value)>, k: u64, v: Value) -> bool {
    &&& post.len() == pre.len() + if has_key(pre, k) {
        0int
    } else {
        1int
    }
    &&& forall|j: int| 0 <= j < pre.len() && (#[trigger] pre[j]).0 != k ==> post[j] == pre[j]
    &&& forall|j: int| 0 <= j < post.len() && (#[trigger] post[j]).0 == k ==> post[j] == (k, v)
    &&& has_key(post, k)
}

/// The fan-out a lieutenant sends after recording its own relay: one
/// `Forward` carrying value `v` per peer, in peer order.
pub open spec fn forward_fanout(out: Seq<(u64, Message)>, peers: Seq<u64>, id: u64, v: Value) -> bool {
    &&& out.len() == peers.len()
    &&& forall|i: int| 0 <= i < out.len() ==> (#[trigger] out[i]).0 == peers[i]
    &&& forall|i: int|
        0 <= i < out.len() ==> (#[trigger] out[i]).1@ == (MsgV::Forward { from: id, value: v })
}

/// Record relay `v` under node `k`, keeping the keys unique.
#[verifier::loop_isolation(false)]
fn record(s: &mut Vec<(u64, Value)>, k: u64, v: Value)
    requires
        forall|i: int, j: int|
            0 <= i < j < old(s)@.len() ==> (#[trigger] old(s)@[i]).0 != (#[trigger] old(s)@[j]).0,
    ensures
        recorded(old(s)@, final(s)@, k, v),
        forall|i: int, j: int|
            0 <= i < j < final(s)@.len() ==> (#[trigger] final(s)@[i]).0
                != (#[trigger] final(s)@[j]).0,
{
    let mut i: usize = 0;
    while i < s.len()
        invariant
            i <= s@.len(),
            s@ == old(s)@,
            forall|j: int| 0 <= j < i ==> (#[trigger] s@[j]).0 != k,
        decreases s@.len() - i,
    {
        if s[i].0 == k {
            proof {
                assert(old(s)@[i as int].0 == k);
                assert(has_key(old(s)@, k));
                assert forall|j: int|
                    0 <= j < old(s)@.len() && (#[trigger] old(s)@[j]).0 == k implies j
                    == i as int by {
                    if j < i as int {
                        assert(old(s)@[j].0 != old(s)@[i as int].0);
                    } else if j > i as int {
                        assert(old(s)@[i as int].0 != old(s)@[j].0);
                    }
                }
            }
            s[i] = (k, v);
            proof {
                assert(s@ == old(s)@.update(i as int, (k, v)));
                assert(s@[i as int] == (k, v));
            }
            return ;
        }
        i = i + 1;
    }
    s.push((k, v));
    proof {
        assert(!has_key(old(s)@, k));
        assert(s@[old(s)@.len() as int] == (k, v));
        assert(has_key(s@, k));
    }
}

fn lookup_or_retreat(orders: &Vec<(u64, Value)>, k: u64) -> (r: Value)
    ensures
        r == order_for(orders@, k),
{
    proof {
        assert(orders@.subrange(0, orders@.len() as int) =~= orders@);
    }
    let mut i: usize = 0;
    while i < orders.len()
        invariant
            i <= orders@.len(),
            assoc_lookup(orders@, k) == assoc_lookup(orders@.subrange(i as int, orders@.len() as int), k),
        decreases orders@.len() - i,
    {
        if orders[i].0 == k {
            proof {
                let tail = orders@.subrange(i as int, orders@.len() as int);
                assert(tail[0] == orders@[i as int]);
            }
            return orders[i].1;
        }
        proof {
            let tail = orders@.subrange(i as int, orders@.len() as int);
            assert(tail[0] == orders@[i as int]);
            assert(tail.drop_first() =~= orders@.subrange(i + 1 as int, orders@.len() as int));
        }
        i = i + 1;
    }
    Value::Retreat
}

/// Byzantine validity in the three-node setting: one faulty lieutenant,
/// a truthful commander ordering `v`. The honest lieutenant's record then
/// holds its own truthful relay of `v` beside the faulty node's inverted
/// relay, and its decision is `v`: two truthful votes outweigh one
/// inverted vote.
pub proof fn lemma_byzantine_validity(v: Value, honest: u64, faulty: u64)
    requires
        honest != faulty,
    ensures
        spec_decide(v, seq![(honest, v), (faulty, spec_invert(v))]) == v,
{
    let fwd = seq![(honest, v), (faulty, spec_invert(v))];
    let s1: Seq<(u64, Value)> = seq![(honest, v)];
    let s0 = Seq::<(u64, Value)>::empty();
    crate::msg::lemma_invert_involution(v);
    assert(fwd.drop_last() =~= s1);
    assert(s1.drop_last() =~= s0);
    assert(fwd.last() == (faulty, spec_invert(v)));
    assert(s1.last() == (honest, v));
    assert(votes_for(s0, v) == 0);
    assert(votes_for(s0, spec_invert(v)) == 0);
    assert(votes_for(s1, v) == 1);
    assert(votes_for(s1, spec_invert(v)) == 0);
    assert(votes_for(fwd, v) == 1);
    assert(votes_for(fwd, spec_invert(v)) == 1);
    match v {
        Value::Attack => {
            assert(total_votes(v, fwd, Value::Attack) == 2);
            assert(total_votes(v, fwd, Value::Retreat) == 1);
        },
        Value::Retreat => {
            assert(total_votes(v, fwd, Value::Retreat) == 2);
            assert(total_votes(v, fwd, Value::Attack) == 1);
        },
    }
}

} // verus!
