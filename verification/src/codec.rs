//! The wire format: every message travels as a tag byte, fixed-width
//! little-endian integers, and (for the mutual-exclusion messages) the raw
//! resource name as the remainder of the body. Decoding is exact: a body
//! that the encoder could not have produced decodes to `None` and the
//! caller ignores it.

use vstd::prelude::*;

use crate::msg::{Message, MsgV, Value};

verus! {

/// Wire byte for a command value.
pub open spec fn value_byte(v: Value) -> u8 {
    match v {
        Value::Attack => 1,
        Value::Retreat => 2,
    }
}

/// Command value for a wire byte, if it denotes one.
pub open spec fn byte_value(b: u8) -> Option<Value> {
    if b == 1 {
        Some(Value::Attack)
    } else if b == 2 {
        Some(Value::Retreat)
    } else {
        None
    }
}

/// The eight little-endian bytes of a 64-bit integer.
pub open spec fn spec_le8(x: u64) -> Seq<u8> {
    seq![
        (x & 0xff) as u8,
        ((x >> 8) & 0xff) as u8,
        ((x >> 16) & 0xff) as u8,
        ((x >> 24) & 0xff) as u8,
        ((x >> 32) & 0xff) as u8,
        ((x >> 40) & 0xff) as u8,
        ((x >> 48) & 0xff) as u8,
        ((x >> 56) & 0xff) as u8,
    ]
}

/// The 64-bit integer denoted by eight little-endian bytes.
pub open spec fn spec_u64_of(b: Seq<u8>) -> u64
    recommends
        b.len() == 8,
{
    (b[0] as u64) | ((b[1] as u64) << 8) | ((b[2] as u64) << 16) | ((b[3] as u64) << 24) | (
    (b[4] as u64) << 32) | ((b[5] as u64) << 40) | ((b[6] as u64) << 48) | ((b[7] as u64) << 56)
}

/// Splitting an integer into little-endian bytes and reassembling them
/// gives the integer back.
pub proof fn lemma_le8_round_trip(x: u64)
    ensures
        spec_le8(x).len() == 8,
        spec_u64_of(spec_le8(x)) == x,
{
    assert(((x & 0xff) as u8 as u64) | (((x >> 8) & 0xff) as u8 as u64) << 8 | (((x >> 16)
        & 0xff) as u8 as u64) << 16 | (((x >> 24) & 0xff) as u8 as u64) << 24 | (((x >> 32)
        & 0xff) as u8 as u64) << 32 | (((x >> 40) & 0xff) as u8 as u64) << 40 | (((x >> 48)
        & 0xff) as u8 as u64) << 48 | (((x >> 56) & 0xff) as u8 as u64) << 56 == x) by (bit_vector);
}

/// The body that `encode` produces for a message.
pub open spec fn spec_encode(m: MsgV) -> Seq<u8> {
    match m {
        MsgV::Order { from, value } => seq![1u8, value_byte(value)] + spec_le8(from),
        MsgV::Forward { from, value } => seq![2u8, value_byte(value)] + spec_le8(from),
        MsgV::Request { from, ts, resource } => seq![3u8] + spec_le8(from) + spec_le8(ts)
            + resource,
        MsgV::Reply { from, resource } => seq![4u8] + spec_le8(from) + resource,
    }
}

/// The message a body denotes, or `None` where no encoding produces it.
pub open spec fn spec_decode(b: Seq<u8>) -> Option<MsgV> {
    if b.len() == 0 {
        None
    } else if b[0] == 1 || b[0] == 2 {
        if b.len() == 10 && byte_value(b[1]) is Some {
            let from = spec_u64_of(b.subrange(2, 10));
            let value = byte_value(b[1])->Some_0;
            if b[0] == 1 {
                Some(MsgV::Order { from, value })
            } else {
                Some(MsgV::Forward { from, value })
            }
        } else {
            None
        }
    } else if b[0] == 3 {
        if b.len() >= 17 {
            Some(
                MsgV::Request {
                    from: spec_u64_of(b.subrange(1, 9)),
                    ts: spec_u64_of(b.subrange(9, 17)),
                    resource: b.subrange(17, b.len() as int),
                },
            )
        } else {
            None
        }
    } else if b[0] == 4 {
        if b.len() >= 9 {
            Some(
                MsgV::Reply {
                    from: spec_u64_of(b.subrange(1, 9)),
                    resource: b.subrange(9, b.len() as int),
                },
            )
        } else {
            None
        }
    } else {
        None
    }
}

/// Encoding then decoding any message yields the message back, every
/// field equal.
pub proof fn lemma_round_trip(m: MsgV)
    ensures
        spec_decode(spec_encode(m)) == Some(m),
{
    let e = spec_encode(m);
    match m {
        MsgV::Order { from, value } => {
            lemma_le8_round_trip(from);
            assert(e.subrange(2, 10) =~= spec_le8(from));
            assert(byte_value(value_byte(value)) == Some(value));
        },
        MsgV::Forward { from, value } => {
            lemma_le8_round_trip(from);
            assert(e.subrange(2, 10) =~= spec_le8(from));
            assert(byte_value(value_byte(value)) == Some(value));
        },
        MsgV::Request { from, ts, resource } => {
            lemma_le8_round_trip(from);
            lemma_le8_round_trip(ts);
            assert(e.subrange(1, 9) =~= spec_le8(from));
            assert(e.subrange(9, 17) =~= spec_le8(ts));
            assert(e.subrange(17, e.len() as int) =~= resource);
        },
        MsgV::Reply { from, resource } => {
            lemma_le8_round_trip(from);
            assert(e.subrange(1, 9) =~= spec_le8(from));
            assert(e.subrange(9, e.len() as int) =~= resource);
        },
    }
}

fn value_to_byte(v: Value) -> (r: u8)
    ensures
        r == value_byte(v),
{
    match v {
        Value::Attack => 1,
        Value::Retreat => 2,
    }
}

fn push_u64(out: &mut Vec<u8>, x: u64)
    ensures
        final(out)@ == old(out)@ + spec_le8(x),
{
    proof {
        assert((x & 0xff) < 256 && ((x >> 8) & 0xff) < 256 && ((x >> 16) & 0xff) < 256 && ((x
            >> 24) & 0xff) < 256 && ((x >> 32) & 0xff) < 256 && ((x >> 40) & 0xff) < 256 && ((x
            >> 48) & 0xff) < 256 && ((x >> 56) & 0xff) < 256) by (bit_vector);
    }
    out.push((x & 0xff) as u8);
    out.push(((x >> 8) & 0xff) as u8);
    out.push(((x >> 16) & 0xff) as u8);
    out.push(((x >> 24) & 0xff) as u8);
    out.push(((x >> 32) & 0xff) as u8);
    out.push(((x >> 40) & 0xff) as u8);
    out.push(((x >> 48) & 0xff) as u8);
    out.push(((x >> 56) & 0xff) as u8);
    proof {
        assert(out@ =~= old(out)@ + spec_le8(x));
    }
}

fn push_bytes(out: &mut Vec<u8>, src: &Vec<u8>)
    ensures
        final(out)@ == old(out)@ + src@,
{
    let ghost base = out@;
    let mut i: usize = 0;
    while i < src.len()
        invariant
            i <= src@.len(),
            out@ == base + src@.subrange(0, i as int),
        decreases src@.len() - i,
    {
        out.push(src[i]);
        proof {
            assert(out@ =~= base + src@.subrange(0, i + 1 as int));
        }
        i = i + 1;
    }
    proof {
        assert(src@.subrange(0, src@.len() as int) =~= src@);
    }
}

fn read_u64(bytes: &Vec<u8>, off: usize) -> (r: u64)
    requires
        off + 8 <= bytes@.len(),
    ensures
        r == spec_u64_of(bytes@.subrange(off as int, off as int + 8)),
{
    let n: usize = bytes.len();
    assert(off + 8 <= n);
    let r = (bytes[off] as u64) | ((bytes[off + 1] as u64) << 8) | ((bytes[off + 2] as u64) << 16)
        | ((bytes[off + 3] as u64) << 24) | ((bytes[off + 4] as u64) << 32) | ((bytes[off
        + 5] as u64) << 40) | ((bytes[off + 6] as u64) << 48) | ((bytes[off + 7] as u64) << 56);
    proof {
        let s = bytes@.subrange(off as int, off as int + 8);
        assert(s[0] == bytes@[off as int]);
        assert(s[1] == bytes@[off as int + 1]);
        assert(s[2] == bytes@[off as int + 2]);
        assert(s[3] == bytes@[off as int + 3]);
        assert(s[4] == bytes@[off as int + 4]);
        assert(s[5] == bytes@[off as int + 5]);
        assert(s[6] == bytes@[off as int + 6]);
        assert(s[7] == bytes@[off as int + 7]);
    }
    r
}

fn copy_tail(bytes: &Vec<u8>, off: usize) -> (r: Vec<u8>)
    requires
        off <= bytes@.len(),
    ensures
        r@ == bytes@.subrange(off as int, bytes@.len() as int),
{
    let mut r: Vec<u8> = Vec::new();
    let mut i: usize = off;
    while i < bytes.len()
        invariant
            off <= i <= bytes@.len(),
            r@ == bytes@.subrange(off as int, i as int),
        decreases bytes@.len() - i,
    {
        r.push(bytes[i]);
        proof {
            assert(r@ =~= bytes@.subrange(off as int, i + 1 as int));
        }
        i = i + 1;
    }
    r
}

/// Serialize a message into a request body.
pub fn encode(m: &Message) -> (r: Vec<u8>)
    ensures
        r@ == spec_encode(m@),
{
    let mut out: Vec<u8> = Vec::new();
    match m {
        Message::Order { from, value } => {
            out.push(1);
            out.push(value_to_byte(*value));
            push_u64(&mut out, *from);
        },
        Message::Forward { from, value } => {
            out.push(2);
            out.push(value_to_byte(*value));
            push_u64(&mut out, *from);
        },
        Message::Request { from, ts, resource } => {
            out.push(3);
            push_u64(&mut out, *from);
            push_u64(&mut out, *ts);
            push_bytes(&mut out, resource);
        },
        Message::Reply { from, resource } => {
            out.push(4);
            push_u64(&mut out, *from);
            push_bytes(&mut out, resource);
        },
    }
    proof {
        assert(out@ =~= spec_encode(m@));
    }
    out
}

/// Parse a request body; `None` marks a malformed payload, which a node
/// logs and otherwise ignores.
pub fn decode(bytes: &Vec<u8>) -> (r: Option<Message>)
    ensures
        match r {
            Some(m) => spec_decode(bytes@) == Some(m@),
            None => spec_decode(bytes@) is None,
        },
{
    if bytes.len() == 0 {
        return None;
    }
    let tag = bytes[0];
    if tag == 1 || tag == 2 {
        if bytes.len() != 10 {
            return None;
        }
        let vb = bytes[1];
        let value = if vb == 1 {
            Value::Attack
        } else if vb == 2 {
            Value::Retreat
        } else {
            return None;
        };
        let from = read_u64(bytes, 2);
        if tag == 1 {
            Some(Message::Order { from, value })
        } else {
            Some(Message::Forward { from, value })
        }
    } else if tag == 3 {
        if bytes.len() < 17 {
            return None;
        }
        let from = read_u64(bytes, 1);
        let ts = read_u64(bytes, 9);
        let resource = copy_tail(bytes, 17);
        Some(Message::Request { from, ts, resource })
    } else if tag == 4 {
        if bytes.len() < 9 {
            return None;
        }
        let from = read_u64(bytes, 1);
        let resource = copy_tail(bytes, 9);
        Some(Message::Reply { from, resource })
    } else {
        None
    }
}

} // verus!
