//! DNS-over-TCP framing: a 16-bit big-endian length prefix before the
//! message bytes, the same framing in both directions.

use vstd::prelude::*;

verus! {

/// The value of a big-endian byte pair.
pub open spec fn spec_u16_be(hi: u8, lo: u8) -> u16 {
    (hi * 256 + lo) as u16
}

/// The two big-endian bytes of a 16-bit length.
pub open spec fn spec_be_bytes(v: u16) -> (u8, u8) {
    ((v / 256) as u8, (v % 256) as u8)
}

/// A framed message: the two length bytes, then the message itself.
pub open spec fn spec_frame(msg: Seq<u8>) -> Seq<u8>
    recommends
        msg.len() <= 0xFFFF,
{
    seq![spec_be_bytes(msg.len() as u16).0, spec_be_bytes(msg.len() as u16).1] + msg
}

/// Encode a 16-bit length as its two big-endian bytes.
pub fn encode_u16_be(v: u16) -> (r: (u8, u8))
    ensures
        r == spec_be_bytes(v),
{
    ((v / 256) as u8, (v % 256) as u8)
}

/// Read a 16-bit length from its two big-endian bytes.
pub fn decode_u16_be(hi: u8, lo: u8) -> (r: u16)
    ensures
        r == spec_u16_be(hi, lo),
{
    (hi as u16) * 256 + (lo as u16)
}

/// Frame a message for a TCP stream: big-endian length, then the bytes.
pub fn frame_tcp_message(msg: &Vec<u8>) -> (r: Vec<u8>)
    requires
        msg@.len() <= 0xFFFF,
    ensures
        r@ == spec_frame(msg@),
        r@.len() == msg@.len() + 2,
        spec_u16_be(r@[0], r@[1]) == msg@.len(),
        r@.subrange(2, r@.len() as int) == msg@,
{
    let len: u16 = msg.len() as u16;
    let (hi, lo) = encode_u16_be(len);
    let mut out: Vec<u8> = Vec::new();
    out.push(hi);
    out.push(lo);
    let n = msg.len();
    let mut i: usize = 0;
    while i < n
        invariant
            n == msg@.len(),
            n <= 0xFFFF,
            i <= n,
            out@.len() == i + 2,
            out@[0] == hi,
            out@[1] == lo,
            forall|j: int| 0 <= j < i ==> out@[j + 2] == msg@[j],
        decreases n - i,
    {
        out.push(msg[i]);
        i += 1;
    }
    proof {
        assert(out@ =~= spec_frame(msg@));
        assert(out@.subrange(2, out@.len() as int) =~= msg@);
    }
    out
}

/// The framing round-trips: the length bytes of a framed message decode to
/// the message length, and the rest is the message unchanged.
pub proof fn lemma_frame_round_trip(msg: Seq<u8>)
    requires
        msg.len() <= 0xFFFF,
    ensures
        spec_u16_be(spec_frame(msg)[0], spec_frame(msg)[1]) == msg.len(),
        spec_frame(msg).subrange(2, spec_frame(msg).len() as int) == msg,
{
    assert(spec_frame(msg).subrange(2, spec_frame(msg).len() as int) =~= msg);
}

/// Length bytes round-trip through encoding and decoding.
pub proof fn lemma_be_round_trip(v: u16)
    ensures
        spec_u16_be(spec_be_bytes(v).0, spec_be_bytes(v).1) == v,
{
}

} // verus!
