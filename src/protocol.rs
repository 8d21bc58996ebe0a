//! The frame codec of the wire protocol. A frame is an eight-byte header,
//! the marker bytes `DE AD BE EF` followed by the payload length as a 32-bit
//! big-endian number, and then the payload itself.
use vstd::prelude::*;

verus! {

/// The payload length that a header announces.
pub open spec fn frame_len(b: Seq<u8>) -> nat {
    (b[4] as nat) * 0x100_0000 + (b[5] as nat) * 0x1_0000 + (b[6] as nat) * 0x100 + (b[7] as nat)
}

/// `b` starts with the frame marker.
pub open spec fn has_marker(b: Seq<u8>) -> bool {
    b.len() >= 8 && b[0] == 0xDEu8 && b[1] == 0xADu8 && b[2] == 0xBEu8 && b[3] == 0xEFu8
}

/// `b` starts with a whole frame.
pub open spec fn frame_complete(b: Seq<u8>) -> bool {
    has_marker(b) && 8 + frame_len(b) <= b.len()
}

/// The header of a frame whose payload has `n` bytes.
pub open spec fn frame_header(n: u32) -> Seq<u8> {
    seq![0xDEu8, 0xADu8, 0xBEu8, 0xEFu8, (n >> 24u32) as u8, (n >> 16u32) as u8, (n >> 8u32) as u8, n as u8]
}

/// Codec for frames.
pub struct ChitCodec;

/// The protocol that carries frames of this codec.
pub struct ChitProto;

impl ChitCodec {
    /// Takes the first frame off the front of `buf` and returns its payload.
    /// Where `buf` does not start with a whole frame, nothing is taken.
    pub fn decode(&mut self, buf: &mut Vec<u8>) -> (r: Option<Vec<u8>>)
        ensures
            frame_complete(old(buf)@) ==> r is Some && r->Some_0@ == old(buf)@.subrange(
                8,
                8 + frame_len(old(buf)@) as int,
            ) && final(buf)@ == old(buf)@.subrange(8 + frame_len(old(buf)@) as int, old(buf)@.len() as int),
            !frame_complete(old(buf)@) ==> r is None && final(buf)@ == old(buf)@,
    {
        let n = buf.len();
        if n < 8 {
            return None;
        }
        if buf[0] != 0xDE || buf[1] != 0xAD || buf[2] != 0xBE || buf[3] != 0xEF {
            return None;
        }
        let len: u64 = (buf[4] as u64) * 0x100_0000 + (buf[5] as u64) * 0x1_0000 + (buf[6] as u64)
            * 0x100 + (buf[7] as u64);
        if len > (n - 8) as u64 {
            return None;
        }
        let end = 8 + len as usize;
        let ghost b0 = buf@;
        let rest = buf.split_off(end);
        let payload = buf.split_off(8);
        *buf = rest;
        assert(payload@ =~= b0.subrange(8, end as int));
        Some(payload)
    }

    /// Appends to `buf` the frame that carries `msg`.
    pub fn encode(&mut self, msg: Vec<u8>, buf: &mut Vec<u8>)
        requires
            msg@.len() <= u32::MAX,
        ensures
            final(buf)@ == old(buf)@ + frame_header(msg@.len() as u32) + msg@,
    {
        let n = msg.len() as u32;
        buf.push(0xDE);
        buf.push(0xAD);
        buf.push(0xBE);
        buf.push(0xEF);
        buf.push((n >> 24u32) as u8);
        buf.push((n >> 16u32) as u8);
        buf.push((n >> 8u32) as u8);
        buf.push(n as u8);
        let ghost mid = buf@;
        let mut i: usize = 0;
        while i < msg.len()
            invariant
                i <= msg@.len(),
                buf@ == mid + msg@.subrange(0, i as int),
            decreases msg@.len() - i,
        {
            buf.push(msg[i]);
            i = i + 1;
            assert(buf@ =~= mid + msg@.subrange(0, i as int));
        }
        assert(msg@.subrange(0, i as int) =~= msg@);
        assert(mid =~= old(buf)@ + frame_header(n));
    }
}

proof fn lemma_header_len(n: u32)
    ensures
        ((n >> 24u32) as u8 as nat) * 0x100_0000 + ((n >> 16u32) as u8 as nat) * 0x1_0000 + ((n
            >> 8u32) as u8 as nat) * 0x100 + (n as u8 as nat) == n as nat,
{
    let a = (n >> 24u32) as u8;
    let b = (n >> 16u32) as u8;
    let c = (n >> 8u32) as u8;
    let d = n as u8;
    assert(a as u32 * 0x100_0000u32 + b as u32 * 0x1_0000u32 + c as u32 * 0x100u32 + d as u32 == n)
        by (bit_vector)
        requires
            a == (n >> 24u32) as u8,
            b == (n >> 16u32) as u8,
            c == (n >> 8u32) as u8,
            d == n as u8,
    ;
}

/// A frame that `encode` writes is read back whole by `decode`, which
/// returns the same payload and leaves whatever followed it.
pub proof fn lemma_frame_round_trip(msg: Seq<u8>, rest: Seq<u8>)
    requires
        msg.len() <= u32::MAX,
    ensures
        ({
            let b = frame_header(msg.len() as u32) + msg + rest;
            &&& frame_complete(b)
            &&& frame_len(b) == msg.len()
            &&& b.subrange(8, 8 + msg.len() as int) == msg
            &&& b.subrange(8 + msg.len() as int, b.len() as int) == rest
        }),
{
    let n = msg.len() as u32;
    let b = frame_header(n) + msg + rest;
    lemma_header_len(n);
    assert(frame_len(b) == n);
    assert(b.subrange(8, 8 + msg.len() as int) =~= msg);
    assert(b.subrange(8 + msg.len() as int, b.len() as int) =~= rest);
}

} // verus!
