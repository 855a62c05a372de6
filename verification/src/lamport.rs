//! Lamport's logical-clock mutual exclusion. Every node keeps a logical
//! clock, a per-resource queue of pending requests ordered by
//! `(timestamp, node)` — the node id breaking timestamp ties — and a
//! per-resource set of nodes that acknowledged its own outstanding
//! request. A node may enter the critical section for a resource only
//! when its own entry is the minimum of that resource's queue and every
//! peer has replied.

use vstd::prelude::*;

use crate::msg::{Message, MsgV};

verus! {

/// Weak lexicographic order on `(timestamp, node)` entries.
pub open spec fn lex_le(a: (u64, u64), b: (u64, u64)) -> bool {
    a.0 < b.0 || (a.0 == b.0 && a.1 <= b.1)
}

/// Strict lexicographic order on `(timestamp, node)` entries.
pub open spec fn lex_lt(a: (u64, u64), b: (u64, u64)) -> bool {
    a.0 < b.0 || (a.0 == b.0 && a.1 < b.1)
}

/// The minimum entry of a non-empty queue under the lexicographic order:
/// what a priority queue of requests yields first.
pub open spec fn min_entry(s: Seq<(u64, u64)>) -> (u64, u64)
    recommends
        s.len() > 0,
    decreases s.len(),
{
    if s.len() <= 1 {
        s[0]
    } else {
        let m = min_entry(s.drop_last());
        if lex_le(m, s.last()) {
            m
        } else {
            s.last()
        }
    }
}

/// The minimum entry is in the queue and below every entry.
pub proof fn lemma_min_entry(s: Seq<(u64, u64)>)
    requires
        s.len() > 0,
    ensures
        s.contains(min_entry(s)),
        forall|i: int| 0 <= i < s.len() ==> lex_le(min_entry(s), #[trigger] s[i]),
    decreases s.len(),
{
    if s.len() == 1 {
        assert(s[0] == min_entry(s));
    } else {
        lemma_min_entry(s.drop_last());
        let m = min_entry(s.drop_last());
        if lex_le(m, s.last()) {
            let w = choose|i: int| 0 <= i < s.drop_last().len() && s.drop_last()[i] == m;
            assert(s.drop_last().contains(m));
            assert(s[w] == m);
        }
        assert forall|i: int| 0 <= i < s.len() implies lex_le(min_entry(s), #[trigger] s[i]) by {
            if i < s.len() - 1 {
                assert(s.drop_last()[i] == s[i]);
            }
        }
    }
}

/// The clock after a message stamped `t` arrives at a clock reading `c`.
pub open spec fn tick(c: int, t: int) -> int {
    if c >= t {
        c + 1
    } else {
        t + 1
    }
}

/// The clock after a whole sequence of stamped messages has arrived.
pub open spec fn clock_after(c: int, ts: Seq<int>) -> int
    decreases ts.len(),
{
    if ts.len() == 0 {
        c
    } else {
        tick(clock_after(c, ts.drop_last()), ts.last())
    }
}

/// Clock monotonicity: across any sequence of received stamped messages,
/// each arrival strictly advances the local clock, and right after the
/// message stamped `ts[i]` the clock reads at least `ts[i] + 1`.
pub proof fn lemma_clock_monotonic(c: int, ts: Seq<int>, i: int)
    requires
        0 <= i < ts.len(),
    ensures
        clock_after(c, ts.take(i + 1)) == tick(clock_after(c, ts.take(i)), ts[i]),
        clock_after(c, ts.take(i + 1)) > clock_after(c, ts.take(i)),
        clock_after(c, ts.take(i + 1)) >= ts[i] + 1,
{
    assert(ts.take(i + 1).drop_last() =~= ts.take(i));
    assert(ts.take(i + 1).last() == ts[i]);
}

/// The pending requests for one named resource.
pub struct ResourceQueue {
    pub resource: Vec<u8>,
    pub entries: Vec<(u64, u64)>,
}

/// The nodes that have acknowledged this node's outstanding request for
/// one named resource.
pub struct ReplySet {
    pub resource: Vec<u8>,
    pub nodes: Vec<u64>,
}

/// One participant of the mutual-exclusion protocol.
pub struct LamportNode {
    pub id: u64,
    pub peers: Vec<u64>,
    pub clock: u64,
    pub queues: Vec<ResourceQueue>,
    pub replies: Vec<ReplySet>,
}

/// Entries whose node is not `id`: what a queue keeps when `id` releases
/// a resource defensively.
pub open spec fn keeps(id: u64) -> spec_fn((u64, u64)) -> bool {
    |e: (u64, u64)| e.1 != id
}

/// What arrival of request entry `e` for resource `r` does to the queue
/// list: the entry joins the queue of `r` where such a queue exists;
/// queues are fixed at construction, so an unknown resource is dropped.
pub open spec fn queues_requested(
    pre: Seq<ResourceQueue>,
    post: Seq<ResourceQueue>,
    r: Seq<u8>,
    e: (u64, u64),
) -> bool {
    &&& post.len() == pre.len()
    &&& forall|i: int| 0 <= i < pre.len() ==> (#[trigger] post[i]).resource@ == pre[i].resource@
    &&& forall|i: int|
        0 <= i < pre.len() && (#[trigger] pre[i]).resource@ != r ==> post[i].entries@
            == pre[i].entries@
    &&& forall|i: int|
        0 <= i < pre.len() && (#[trigger] pre[i]).resource@ == r ==> post[i].entries@
            == pre[i].entries@.push(e)
}

/// What releasing resource `r` does to one queue: nothing if it is empty;
/// if the minimum entry is this node's, that one entry leaves; otherwise,
/// defensively, every entry of this node leaves wherever it stands.
pub open spec fn entries_released(pre: Seq<(u64, u64)>, post: Seq<(u64, u64)>, id: u64) -> bool {
    if pre.len() == 0 {
        post == pre
    } else if min_entry(pre).1 == id {
        exists|i: int| 0 <= i < pre.len() && #[trigger] pre[i] == min_entry(pre) && post == pre.remove(i)
    } else {
        post == pre.filter(keeps(id))
    }
}

/// What releasing resource `r` does to the queue list.
pub open spec fn queues_released(
    pre: Seq<ResourceQueue>,
    post: Seq<ResourceQueue>,
    r: Seq<u8>,
    id: u64,
) -> bool {
    &&& post.len() == pre.len()
    &&& forall|i: int| 0 <= i < pre.len() ==> (#[trigger] post[i]).resource@ == pre[i].resource@
    &&& forall|i: int|
        0 <= i < pre.len() && (#[trigger] pre[i]).resource@ != r ==> post[i].entries@
            == pre[i].entries@
    &&& forall|i: int|
        0 <= i < pre.len() && (#[trigger] pre[i]).resource@ == r ==> entries_released(
            pre[i].entries@,
            post[i].entries@,
            id,
        )
}

/// What clearing the reply set of resource `r` does to the reply list:
/// the set of `r` is emptied where it exists, the rest is untouched.
pub open spec fn replies_cleared(pre: Seq<ReplySet>, post: Seq<ReplySet>, r: Seq<u8>) -> bool {
    &&& post.len() == pre.len()
    &&& forall|i: int| 0 <= i < pre.len() ==> (#[trigger] post[i]).resource@ == pre[i].resource@
    &&& forall|i: int|
        0 <= i < pre.len() && (#[trigger] pre[i]).resource@ != r ==> post[i].nodes@
            == pre[i].nodes@
    &&& forall|i: int|
        0 <= i < pre.len() && (#[trigger] pre[i]).resource@ == r ==> post[i].nodes@
            == Seq::<u64>::empty()
}

/// What an acknowledgment from `from` for resource `r` does to the reply
/// list: `from` joins the set of `r`, which is created when missing —
/// unlike the queues, the reply list grows for unknown resources.
pub open spec fn replies_noted(
    pre: Seq<ReplySet>,
    post: Seq<ReplySet>,
    r: Seq<u8>,
    from: u64,
) -> bool {
    if exists|i: int| 0 <= i < pre.len() && (#[trigger] pre[i]).resource@ == r {
        &&& post.len() == pre.len()
        &&& forall|i: int| 0 <= i < pre.len() ==> (#[trigger] post[i]).resource@ == pre[i].resource@
        &&& forall|i: int|
            0 <= i < pre.len() && (#[trigger] pre[i]).resource@ != r ==> post[i].nodes@
                == pre[i].nodes@
        &&& forall|i: int|
            0 <= i < pre.len() && (#[trigger] pre[i]).resource@ == r ==> post[i].nodes@ == (
            if pre[i].nodes@.contains(from) {
                pre[i].nodes@
            } else {
                pre[i].nodes@.push(from)
            })
    } else {
        &&& post.len() == pre.len() + 1
        &&& forall|i: int|
            0 <= i < pre.len() ==> (#[trigger] post[i]).resource@ == pre[i].resource@
                && post[i].nodes@ == pre[i].nodes@
        &&& post[pre.len() as int].resource@ == r
        &&& post[pre.len() as int].nodes@ == seq![from]
    }
}

impl LamportNode {
    /// Well-formed state: peers exclude this node and repeat nobody, each
    /// resource names at most one queue and one reply set, and no reply
    /// set counts a node twice.
    pub open spec fn wf(self) -> bool {
        &&& self.peers@.no_duplicates()
        &&& !self.peers@.contains(self.id)
        &&& forall|i: int, j: int|
            0 <= i < j < self.queues@.len() ==> (#[trigger] self.queues@[i]).resource@
                != (#[trigger] self.queues@[j]).resource@
        &&& forall|i: int, j: int|
            0 <= i < j < self.replies@.len() ==> (#[trigger] self.replies@[i]).resource@
                != (#[trigger] self.replies@[j]).resource@
        &&& forall|i: int| 0 <= i < self.replies@.len() ==> (#[trigger] self.replies@[i]).nodes@.no_duplicates()
    }

    /// Whether a queue for resource `r` exists.
    pub open spec fn has_queue(self, r: Seq<u8>) -> bool {
        exists|i: int| 0 <= i < self.queues@.len() && (#[trigger] self.queues@[i]).resource@ == r
    }

    /// The index of the queue for `r`; well-defined under `wf`.
    pub open spec fn queue_at(self, r: Seq<u8>) -> int {
        choose|i: int| 0 <= i < self.queues@.len() && (#[trigger] self.queues@[i]).resource@ == r
    }

    /// The pending entries of the queue for `r`.
    pub open spec fn entries_of(self, r: Seq<u8>) -> Seq<(u64, u64)> {
        self.queues@[self.queue_at(r)].entries@
    }

    /// Whether a reply set for resource `r` exists.
    pub open spec fn has_replies(self, r: Seq<u8>) -> bool {
        exists|i: int| 0 <= i < self.replies@.len() && (#[trigger] self.replies@[i]).resource@ == r
    }

    /// The index of the reply set for `r`; well-defined under `wf`.
    pub open spec fn replies_at(self, r: Seq<u8>) -> int {
        choose|i: int| 0 <= i < self.replies@.len() && (#[trigger] self.replies@[i]).resource@ == r
    }

    /// How many peers have acknowledged this node's request for `r`.
    pub open spec fn reply_count(self, r: Seq<u8>) -> int {
        if self.has_replies(r) {
            self.replies@[self.replies_at(r)].nodes@.len() as int
        } else {
            0
        }
    }

    /// The admission check: this node's entry is the minimum of the
    /// queue for `r`, and every peer has acknowledged.
    pub open spec fn can_enter_spec(self, r: Seq<u8>) -> bool {
        &&& self.has_queue(r)
        &&& self.entries_of(r).len() > 0
        &&& min_entry(self.entries_of(r)).1 == self.id
        &&& self.reply_count(r) >= self.peers@.len()
    }
}

fn bytes_eq(a: &Vec<u8>, b: &Vec<u8>) -> (r: bool)
    ensures
        r <==> a@ == b@,
{
    if a.len() != b.len() {
        return false;
    }
    let mut i: usize = 0;
    while i < a.len()
        invariant
            i <= a@.len(),
            a@.len() == b@.len(),
            forall|j: int| 0 <= j < i ==> a@[j] == b@[j],
        decreases a@.len() - i,
    {
        if a[i] != b[i] {
            return false;
        }
        i = i + 1;
    }
    proof {
        assert(a@ =~= b@);
    }
    true
}

fn clone_bytes(src: &Vec<u8>) -> (r: Vec<u8>)
    ensures
        r@ == src@,
{
    let mut r: Vec<u8> = Vec::new();
    let mut i: usize = 0;
    while i < src.len()
        invariant
            i <= src@.len(),
            r@ == src@.subrange(0, i as int),
        decreases src@.len() - i,
    {
        r.push(src[i]);
        proof {
            assert(r@ =~= src@.subrange(0, i + 1 as int));
        }
        i = i + 1;
    }
    proof {
        assert(src@.subrange(0, src@.len() as int) =~= src@);
    }
    r
}

fn contains_u64(v: &Vec<u64>, x: u64) -> (r: bool)
    ensures
        r == v@.contains(x),
{
    let mut i: usize = 0;
    while i < v.len()
        invariant
            i <= v@.len(),
            forall|j: int| 0 <= j < i ==> v@[j] != x,
        decreases v@.len() - i,
    {
        if v[i] == x {
            return true;
        }
        i = i + 1;
    }
    false
}

/// The index and value of the minimum entry of a non-empty queue.
fn min_of(entries: &Vec<(u64, u64)>) -> (r: (usize, (u64, u64)))
    requires
        entries@.len() > 0,
    ensures
        r.0 < entries@.len(),
        entries@[r.0 as int] == r.1,
        r.1 == min_entry(entries@),
{
    let mut best: (u64, u64) = entries[0];
    let mut best_i: usize = 0;
    let mut i: usize = 1;
    proof {
        assert(entries@.subrange(0, 1)[0] == entries@[0]);
    }
    while i < entries.len()
        invariant
            1 <= i <= entries@.len(),
            best_i < i,
            entries@[best_i as int] == best,
            best == min_entry(entries@.subrange(0, i as int)),
        decreases entries@.len() - i,
    {
        proof {
            assert(entries@.subrange(0, i + 1 as int).drop_last() =~= entries@.subrange(
                0,
                i as int,
            ));
            assert(entries@.subrange(0, i + 1 as int).last() == entries@[i as int]);
        }
        let e = entries[i];
        if e.0 < best.0 || (e.0 == best.0 && e.1 < best.1) {
            best = e;
            best_i = i;
        }
        i = i + 1;
    }
    proof {
        assert(entries@.subrange(0, entries@.len() as int) =~= entries@);
    }
    (best_i, best)
}

impl LamportNode {
    /// The index of the queue for `resource`, if one exists.
    #[verifier::loop_isolation(false)]
    fn find_queue(&self, resource: &Vec<u8>) -> (r: Option<usize>)
        requires
            self.wf(),
        ensures
            match r {
                Some(i) => i < self.queues@.len() && self.queues@[i as int].resource@ == resource@
                    && self.has_queue(resource@) && i as int == self.queue_at(resource@),
                None => !self.has_queue(resource@),
            },
    {
        let mut i: usize = 0;
        while i < self.queues.len()
            invariant
                i <= self.queues@.len(),
                forall|j: int| 0 <= j < i ==> (#[trigger] self.queues@[j]).resource@ != resource@,
            decreases self.queues@.len() - i,
        {
            if bytes_eq(&self.queues[i].resource, resource) {
                proof {
                    assert(self.has_queue(resource@));
                    let w = self.queue_at(resource@);
                    assert(0 <= w < self.queues@.len() && self.queues@[w].resource@ == resource@);
                    if w != i as int {
                        if w < i as int {
                            assert(self.queues@[w].resource@ != self.queues@[i as int].resource@);
                        } else {
                            assert(self.queues@[i as int].resource@ != self.queues@[w].resource@);
                        }
                    }
                }
                return Some(i);
            }
            i = i + 1;
        }
        None
    }

    /// The index of the reply set for `resource`, if one exists.
    #[verifier::loop_isolation(false)]
    fn find_replies(&self, resource: &Vec<u8>) -> (r: Option<usize>)
        requires
            self.wf(),
        ensures
            match r {
                Some(i) => i < self.replies@.len() && self.replies@[i as int].resource@ == resource@
                    && self.has_replies(resource@) && i as int == self.replies_at(resource@),
                None => !self.has_replies(resource@),
            },
    {
        let mut i: usize = 0;
        while i < self.replies.len()
            invariant
                i <= self.replies@.len(),
                forall|j: int| 0 <= j < i ==> (#[trigger] self.replies@[j]).resource@ != resource@,
            decreases self.replies@.len() - i,
        {
            if bytes_eq(&self.replies[i].resource, resource) {
                proof {
                    assert(self.has_replies(resource@));
                    let w = self.replies_at(resource@);
                    assert(0 <= w < self.replies@.len() && self.replies@[w].resource@ == resource@);
                    if w != i as int {
                        if w < i as int {
                            assert(self.replies@[w].resource@ != self.replies@[i as int].resource@);
                        } else {
                            assert(self.replies@[i as int].resource@ != self.replies@[w].resource@);
                        }
                    }
                }
                return Some(i);
            }
            i = i + 1;
        }
        None
    }

    /// A fresh node: clock at zero, one empty queue and one empty reply
    /// set per named resource, both lists fixed here for the queues and
    /// only the reply list still able to grow.
    #[verifier::loop_isolation(false)]
    pub fn new(id: u64, peers: Vec<u64>, resources: &Vec<Vec<u8>>) -> (n: LamportNode)
        requires
            peers@.no_duplicates(),
            !peers@.contains(id),
            forall|i: int, j: int|
                0 <= i < j < resources@.len() ==> (#[trigger] resources@[i])@
                    != (#[trigger] resources@[j])@,
        ensures
            n.wf(),
            n.id == id,
            n.peers == peers,
            n.clock == 0,
            n.queues@.len() == resources@.len(),
            forall|i: int|
                0 <= i < resources@.len() ==> (#[trigger] n.queues@[i]).resource@ == resources@[i]@
                    && n.queues@[i].entries@ == Seq::<(u64, u64)>::empty(),
            n.replies@.len() == resources@.len(),
            forall|i: int|
                0 <= i < resources@.len() ==> (#[trigger] n.replies@[i]).resource@
                    == resources@[i]@ && n.replies@[i].nodes@ == Seq::<u64>::empty(),
    {
        let mut queues: Vec<ResourceQueue> = Vec::new();
        let mut replies: Vec<ReplySet> = Vec::new();
        let mut i: usize = 0;
        while i < resources.len()
            invariant
                i <= resources@.len(),
                queues@.len() == i,
                replies@.len() == i,
                forall|j: int|
                    0 <= j < i ==> (#[trigger] queues@[j]).resource@ == resources@[j]@
                        && queues@[j].entries@ == Seq::<(u64, u64)>::empty(),
                forall|j: int|
                    0 <= j < i ==> (#[trigger] replies@[j]).resource@ == resources@[j]@
                        && replies@[j].nodes@ == Seq::<u64>::empty(),
            decreases resources@.len() - i,
        {
            queues.push(ResourceQueue { resource: clone_bytes(&resources[i]), entries: Vec::new() });
            replies.push(ReplySet { resource: clone_bytes(&resources[i]), nodes: Vec::new() });
            i = i + 1;
        }
        LamportNode { id, peers, clock: 0, queues, replies }
    }

    /// Start a request for `resource`: advance the clock, enqueue this
    /// node's own `(clock, id)` entry, forget earlier acknowledgments,
    /// and build the `Request` to multicast to every peer.
    pub fn broadcast_request(&mut self, resource: &Vec<u8>) -> (msg: Message)
        requires
            old(self).wf(),
            old(self).clock < u64::MAX,
        ensures
            final(self).wf(),
            final(self).id == old(self).id,
            final(self).peers == old(self).peers,
            final(self).clock == old(self).clock + 1,
            queues_requested(
                old(self).queues@,
                final(self).queues@,
                resource@,
                ((old(self).clock + 1) as u64, old(self).id),
            ),
            replies_cleared(old(self).replies@, final(self).replies@, resource@),
            msg@ == (MsgV::Request {
                from: old(self).id,
                ts: (old(self).clock + 1) as u64,
                resource: resource@,
            }),
    {
        self.clock = self.clock + 1;
        let ts = self.clock;
        let my_id = self.id;
        let qi = self.find_queue(resource);
        match qi {
            Some(i) => {
                self.queues[i].entries.push((ts, my_id));
            },
            None => {},
        }
        let ri = self.find_replies(resource);
        match ri {
            Some(i) => {
                self.replies[i].nodes.clear();
            },
            None => {},
        }
        Message::Request { from: my_id, ts, resource: clone_bytes(resource) }
    }

    /// Receive a peer's request: advance the clock by the received
    /// timestamp, enqueue the entry, and acknowledge the requester —
    /// unconditionally, whether or not this node wants the resource too.
    pub fn on_request(&mut self, from: u64, ts: u64, resource: &Vec<u8>) -> (reply: Option<Message>)
        requires
            old(self).wf(),
            old(self).clock < u64::MAX,
            ts < u64::MAX,
        ensures
            final(self).wf(),
            final(self).id == old(self).id,
            final(self).peers == old(self).peers,
            final(self).replies == old(self).replies,
            final(self).clock == tick(old(self).clock as int, ts as int),
            queues_requested(old(self).queues@, final(self).queues@, resource@, (ts, from)),
            match reply {
                Some(m) => old(self).peers@.contains(from) && m@ == (MsgV::Reply {
                    from: old(self).id,
                    resource: resource@,
                }),
                None => !old(self).peers@.contains(from),
            },
    {
        if self.clock >= ts {
            self.clock = self.clock + 1;
        } else {
            self.clock = ts + 1;
        }
        let qi = self.find_queue(resource);
        match qi {
            Some(i) => {
                self.queues[i].entries.push((ts, from));
            },
            None => {},
        }
        if contains_u64(&self.peers, from) {
            let my_id = self.id;
            Some(Message::Reply { from: my_id, resource: clone_bytes(resource) })
        } else {
            None
        }
    }

    /// Receive an acknowledgment: `from` joins the reply set of the
    /// resource, which is created when missing. The clock is untouched —
    /// replies carry no timestamp.
    pub fn on_reply(&mut self, from: u64, resource: &Vec<u8>)
        requires
            old(self).wf(),
        ensures
            final(self).wf(),
            final(self).id == old(self).id,
            final(self).peers == old(self).peers,
            final(self).clock == old(self).clock,
            final(self).queues == old(self).queues,
            replies_noted(old(self).replies@, final(self).replies@, resource@, from),
    {
        let ri = self.find_replies(resource);
        match ri {
            Some(i) => {
                if !contains_u64(&self.replies[i].nodes, from) {
                    self.replies[i].nodes.push(from);
                }
            },
            None => {
                let mut nodes: Vec<u64> = Vec::new();
                nodes.push(from);
                self.replies.push(ReplySet { resource: clone_bytes(resource), nodes });
            },
        }
    }

    /// The admission check of Lamport's algorithm: true exactly when
    /// this node's entry is the queue minimum for `resource` and every
    /// peer has acknowledged.
    pub fn can_enter(&self, resource: &Vec<u8>) -> (r: bool)
        requires
            self.wf(),
        ensures
            r == self.can_enter_spec(resource@),
    {
        let qi = match self.find_queue(resource) {
            None => {
                return false;
            },
            Some(i) => i,
        };
        if self.queues[qi].entries.len() == 0 {
            return false;
        }
        let (_, m) = min_of(&self.queues[qi].entries);
        if m.1 != self.id {
            return false;
        }
        let rcount = match self.find_replies(resource) {
            None => 0,
            Some(i) => self.replies[i].nodes.len(),
        };
        rcount >= self.peers.len()
    }

    /// Leave the critical section for `resource`: drop this node's entry
    /// from the head of the queue — or, defensively, drop every entry of
    /// this node wherever positioned — and forget the acknowledgments.
    pub fn release(&mut self, resource: &Vec<u8>)
        requires
            old(self).wf(),
        ensures
            final(self).wf(),
            final(self).id == old(self).id,
            final(self).peers == old(self).peers,
            final(self).clock == old(self).clock,
            queues_released(old(self).queues@, final(self).queues@, resource@, old(self).id),
            replies_cleared(old(self).replies@, final(self).replies@, resource@),
    {
        let my_id = self.id;
        let qi = self.find_queue(resource);
        match qi {
            Some(i) => {
                if self.queues[i].entries.len() > 0 {
                    let (min_i, m) = min_of(&self.queues[i].entries);
                    if m.1 == my_id {
                        self.queues[i].entries.remove(min_i);
                        proof {
                            assert(entries_released(
                                old(self).queues@[i as int].entries@,
                                self.queues@[i as int].entries@,
                                my_id,
                            ));
                        }
                    } else {
                        let kept = keep_others(&self.queues[i].entries, my_id);
                        self.queues[i].entries = kept;
                    }
                }
            },
            None => {},
        }
        let ri = self.find_replies(resource);
        match ri {
            Some(i) => {
                self.replies[i].nodes.clear();
            },
            None => {},
        }
    }
}

/// The entries that survive a defensive release by node `id`.
#[verifier::loop_isolation(false)]
fn keep_others(entries: &Vec<(u64, u64)>, id: u64) -> (r: Vec<(u64, u64)>)
    ensures
        r@ == entries@.filter(keeps(id)),
{
    let mut r: Vec<(u64, u64)> = Vec::new();
    proof {
        assert(entries@.subrange(0, 0).filter(keeps(id)) =~= Seq::<(u64, u64)>::empty());
    }
    let mut i: usize = 0;
    while i < entries.len()
        invariant
            i <= entries@.len(),
            r@ == entries@.subrange(0, i as int).filter(keeps(id)),
        decreases entries@.len() - i,
    {
        proof {
            reveal_with_fuel(Seq::<(u64, u64)>::filter, 2);
            assert(entries@.subrange(0, i + 1 as int).drop_last() =~= entries@.subrange(0, i as int));
            assert(entries@.subrange(0, i + 1 as int).last() == entries@[i as int]);
        }
        let e = entries[i];
        if e.1 != id {
            r.push(e);
        }
        i = i + 1;
    }
    proof {
        assert(entries@.subrange(0, entries@.len() as int) =~= entries@);
    }
    r
}

impl LamportNode {
    /// Decode one inbound body and route it to the matching handler: a
    /// `Request` updates the clock and queue and yields the
    /// acknowledgment to send back to the requester; a `Reply` updates
    /// the reply set; anything else — a malformed body, an agreement
    /// message, or a timestamp too large to advance past — is
    /// acknowledged at the transport and otherwise ignored.
    pub fn handle(&mut self, bytes: &Vec<u8>) -> (out: Option<(u64, Message)>)
        requires
            old(self).wf(),
            old(self).clock < u64::MAX,
        ensures
            final(self).wf(),
            final(self).id == old(self).id,
            final(self).peers == old(self).peers,
            match crate::codec::spec_decode(bytes@) {
                Some(MsgV::Request { from, ts, resource }) => if ts < u64::MAX {
                    &&& final(self).clock == tick(old(self).clock as int, ts as int)
                    &&& queues_requested(old(self).queues@, final(self).queues@, resource, (ts, from))
                    &&& final(self).replies == old(self).replies
                    &&& match out {
                        Some(p) => old(self).peers@.contains(from) && p.0 == from && p.1@
                            == (MsgV::Reply { from: old(self).id, resource }),
                        None => !old(self).peers@.contains(from),
                    }
                } else {
                    *final(self) == *old(self) && out is None
                },
                Some(MsgV::Reply { from, resource }) => {
                    &&& final(self).clock == old(self).clock
                    &&& final(self).queues == old(self).queues
                    &&& replies_noted(old(self).replies@, final(self).replies@, resource, from)
                    &&& out is None
                },
                _ => *final(self) == *old(self) && out is None,
            },
    {
        let msg = match crate::codec::decode(bytes) {
            None => {
                return None;
            },
            Some(m) => m,
        };
        match msg {
            Message::Request { from, ts, resource } => {
                if ts == u64::MAX {
                    None
                } else {
                    let reply = self.on_request(from, ts, &resource);
                    match reply {
                        Some(m) => Some((from, m)),
                        None => None,
                    }
                }
            },
            Message::Reply { from, resource } => {
                self.on_reply(from, &resource);
                None
            },
            _ => None,
        }
    }
}

/// Mutual exclusion safety: two distinct nodes whose queues each hold
/// both pending requests for a resource — which is what holding every
/// peer's acknowledgment certifies — can never both pass the admission
/// check, so their critical sections for that resource cannot overlap.
pub proof fn lemma_mutual_exclusion(a: LamportNode, b: LamportNode, r: Seq<u8>, ta: u64, tb: u64)
    requires
        a.wf(),
        b.wf(),
        a.id != b.id,
        a.has_queue(r),
        b.has_queue(r),
        a.entries_of(r).contains((tb, b.id)),
        b.entries_of(r).contains((ta, a.id)),
        forall|e: (u64, u64)| #[trigger] a.entries_of(r).contains(e) && e.1 == a.id ==> e.0 == ta,
        forall|e: (u64, u64)| #[trigger] b.entries_of(r).contains(e) && e.1 == b.id ==> e.0 == tb,
    ensures
        !(a.can_enter_spec(r) && b.can_enter_spec(r)),
{
    if a.can_enter_spec(r) && b.can_enter_spec(r) {
        lemma_min_entry(a.entries_of(r));
        lemma_min_entry(b.entries_of(r));
        let ma = min_entry(a.entries_of(r));
        let mb = min_entry(b.entries_of(r));
        assert(ma == (ta, a.id));
        assert(mb == (tb, b.id));
        let wa = choose|i: int|
            0 <= i < a.entries_of(r).len() && a.entries_of(r)[i] == (tb, b.id);
        assert(lex_le(ma, a.entries_of(r)[wa]));
        let wb = choose|i: int|
            0 <= i < b.entries_of(r).len() && b.entries_of(r)[i] == (ta, a.id);
        assert(lex_le(mb, b.entries_of(r)[wb]));
        assert(false);
    }
}

/// Lamport ordering fairness: of two concurrent requesters with distinct
/// `(timestamp, node)` pairs, the lexicographically larger one fails its
/// admission check as long as the smaller request is still pending in
/// its queue — so, with all acknowledgments delivered, the smaller pair
/// is admitted first.
pub proof fn lemma_lamport_ordering(a_id: u64, b: LamportNode, r: Seq<u8>, ta: u64, tb: u64)
    requires
        b.wf(),
        a_id != b.id,
        b.has_queue(r),
        b.entries_of(r).contains((ta, a_id)),
        forall|e: (u64, u64)| #[trigger] b.entries_of(r).contains(e) && e.1 == b.id ==> e.0 == tb,
        lex_lt((ta, a_id), (tb, b.id)),
    ensures
        !b.can_enter_spec(r),
{
    if b.can_enter_spec(r) {
        lemma_min_entry(b.entries_of(r));
        let mb = min_entry(b.entries_of(r));
        assert(mb == (tb, b.id));
        let wb = choose|i: int|
            0 <= i < b.entries_of(r).len() && b.entries_of(r)[i] == (ta, a_id);
        assert(lex_le(mb, b.entries_of(r)[wb]));
        assert(false);
    }
}

} // verus!
