//! The message vocabulary shared by both protocols, and the binary command
//! domain of the agreement protocol.

use vstd::prelude::*;

verus! {

/// The binary command domain: a commander orders one of these two values.
#[derive(Clone, Copy, PartialEq, Eq, Structural, Debug)]
pub enum Value {
    Attack,
    Retreat,
}

/// The other value of the binary domain: what a faulty node relays in
/// place of the command it actually received.
pub open spec fn spec_invert(v: Value) -> Value {
    match v {
        Value::Attack => Value::Retreat,
        Value::Retreat => Value::Attack,
    }
}

pub fn invert(v: Value) -> (r: Value)
    ensures
        r == spec_invert(v),
{
    match v {
        Value::Attack => Value::Retreat,
        Value::Retreat => Value::Attack,
    }
}

/// Inverting a command always changes it, and doing so twice restores it.
pub proof fn lemma_invert_involution(v: Value)
    ensures
        spec_invert(v) != v,
        spec_invert(spec_invert(v)) == v,
{
}

/// Mathematical form of a message: resource names as byte sequences.
pub enum MsgV {
    Order { from: u64, value: Value },
    Forward { from: u64, value: Value },
    Request { from: u64, ts: u64, resource: Seq<u8> },
    Reply { from: u64, resource: Seq<u8> },
}

/// One protocol message, as built and routed by the nodes.
///
/// `Order` is the commander's initial command to a lieutenant; `Forward` is
/// a lieutenant's relay of what it received; `Request` and `Reply` carry
/// the mutual-exclusion traffic for a named resource.
#[derive(Debug, PartialEq, Eq)]
pub enum Message {
    Order { from: u64, value: Value },
    Forward { from: u64, value: Value },
    Request { from: u64, ts: u64, resource: Vec<u8> },
    Reply { from: u64, resource: Vec<u8> },
}

impl View for Message {
    type V = MsgV;

    open spec fn view(&self) -> MsgV {
        match self {
            Message::Order { from, value } => MsgV::Order { from: *from, value: *value },
            Message::Forward { from, value } => MsgV::Forward { from: *from, value: *value },
            Message::Request { from, ts, resource } => MsgV::Request {
                from: *from,
                ts: *ts,
                resource: resource@,
            },
            Message::Reply { from, resource } => MsgV::Reply {
                from: *from,
                resource: resource@,
            },
        }
    }
}

} // verus!
