//! The rendezvous messages and the framing of the datagrams that a relay
//! carries between the two ends of a pipe.
use vstd::prelude::*;

verus! {

/// Number of a room.
pub type Identity = u32;

/// Number of a pipe, that is of a bridge that the relay sets up.
pub type Identity2 = u32;

/// The messages exchanged with the rendezvous server over its stream.
#[derive(Clone, Copy, Debug, PartialEq, Eq, Structural)]
pub enum Operate {
    /// A host asks for a room.
    Open,
    /// The server opened the room with this number.
    Opened(Identity),
    /// A player asks to join the room with this number.
    HelloTo(Identity),
    /// Both ends are to dial the relay: the first pipe carries the server
    /// status, the second the game.
    ConnectToMe(Identity2, Identity2),
    BridgeTo(Identity2),
    OperationFailed,
    HeartBeat,
}

/// The kinds of datagram on a relayed pipe, told apart by their first byte.
pub struct CommunicatePacket;

impl CommunicatePacket {
    pub const CONNECT: u8 = 0;
    pub const ACK: u8 = 1;
    pub const DATA: u8 = 2;
    pub const HEARTBEAT: u8 = 3;
    pub const CLOSE: u8 = 4;
}

/// Largest datagram that the pipes receive or send.
pub const MAX_DATAGRAM: usize = 1500;

/// The four bytes of `x`, most significant first.
pub open spec fn be_bytes(x: u32) -> Seq<u8> {
    seq![
        (x / 16777216) as u8,
        ((x / 65536) % 256) as u8,
        ((x / 256) % 256) as u8,
        (x % 256) as u8,
    ]
}

/// The number that four bytes spell, most significant first.
pub open spec fn be_value(b: Seq<u8>) -> u32 {
    (b[0] * 16777216 + b[1] * 65536 + b[2] * 256 + b[3]) as u32
}

/// Reading back the four bytes of a number gives the number.
pub proof fn lemma_be_roundtrip(x: u32)
    ensures
        be_value(be_bytes(x)) == x,
{
    let b = be_bytes(x);
    assert(b[0] * 16777216 + b[1] * 65536 + b[2] * 256 + b[3] == x) by (nonlinear_arith)
        requires
            b[0] == x / 16777216,
            b[1] == (x / 65536) % 256,
            b[2] == (x / 256) % 256,
            b[3] == x % 256,
            x <= u32::MAX,
    ;
}

/// The four bytes of `x`, most significant first, as `x.to_be_bytes()` gives them.
pub fn u32_to_be(x: u32) -> (b: [u8; 4])
    ensures
        b@ == be_bytes(x),
{
    let b = [(x / 16777216) as u8, ((x / 65536) % 256) as u8, ((x / 256) % 256) as u8, (x % 256) as u8];
    assert(b@ =~= be_bytes(x));
    b
}

/// The number that `b[at..at + 4]` spells, as `u32::from_be_bytes` reads it.
pub fn be_to_u32(b: &[u8], at: usize) -> (x: u32)
    requires
        at + 4 <= b@.len(),
    ensures
        x == be_value(b@.subrange(at as int, at + 4)),
{
    let x0 = b[at] as u32;
    let x1 = b[at + 1] as u32;
    let x2 = b[at + 2] as u32;
    let x3 = b[at + 3] as u32;
    assert(x0 * 16777216 + x1 * 65536 + x2 * 256 + x3 <= u32::MAX) by (nonlinear_arith)
        requires
            x0 < 256,
            x1 < 256,
            x2 < 256,
            x3 < 256,
    ;
    x0 * 16777216 + x1 * 65536 + x2 * 256 + x3
}

/// The datagram with which an end dials the relay for pipe `cid`.
pub fn connect_packet(cid: Identity2) -> (p: [u8; 5])
    ensures
        p@ == seq![CommunicatePacket::CONNECT] + be_bytes(cid),
{
    let b = u32_to_be(cid);
    let p = [CommunicatePacket::CONNECT, b[0], b[1], b[2], b[3]];
    assert(p@ =~= seq![CommunicatePacket::CONNECT] + be_bytes(cid));
    p
}

/// Whether a datagram of `len` bytes received into `buf` is the relay's
/// acknowledgement of pipe `cid`: five bytes from the relay itself, the
/// acknowledgement kind, then the number of the pipe.
pub fn is_ack(buf: &[u8], len: usize, from_relay: bool, cid: Identity2) -> (r: bool)
    requires
        5 <= buf@.len(),
    ensures
        r == (len == 5 && from_relay && buf@[0] == CommunicatePacket::ACK && buf@.subrange(1, 5)
            == be_bytes(cid)),
{
    let b = u32_to_be(cid);
    let r = len == 5 && from_relay && buf[0] == CommunicatePacket::ACK && buf[1] == b[0] && buf[2]
        == b[1] && buf[3] == b[2] && buf[4] == b[3];
    assert(r == (len == 5 && from_relay && buf@[0] == CommunicatePacket::ACK && buf@.subrange(1, 5)
        =~= be_bytes(cid)));
    r
}

/// The datagram that carries `payload` to `to`: towards the relay it goes
/// behind the payload kind, to anyone else it goes as it is.
pub open spec fn framed(payload: Seq<u8>, to_relay: bool) -> Seq<u8> {
    if to_relay {
        seq![CommunicatePacket::DATA] + payload
    } else {
        payload
    }
}

/// Frames `payload` for sending; towards the relay it must leave room for
/// the kind byte in a datagram.
pub fn frame_outgoing(payload: &[u8], to_relay: bool) -> (out: Vec<u8>)
    requires
        to_relay ==> payload@.len() < MAX_DATAGRAM,
    ensures
        out@ == framed(payload@, to_relay),
        !to_relay ==> out@ == payload@,
        to_relay ==> out@.len() == payload@.len() + 1 && out@[0] == CommunicatePacket::DATA
            && out@.skip(1) == payload@,
{
    let mut out: Vec<u8> = Vec::new();
    if to_relay {
        out.push(CommunicatePacket::DATA);
    }
    out.extend_from_slice(payload);
    assert(out@ =~= framed(payload@, to_relay));
    out
}

/// What became of a datagram received on a pipe.
#[derive(Clone, Copy, Debug, PartialEq, Eq, Structural)]
pub enum Received {
    /// The first so many bytes of the buffer are the payload.
    Payload(usize),
    /// The relay closed the pipe.
    Closed,
    /// A datagram of the relay's own, to be passed over.
    Skipped,
}

/// The buffer after the payload of a relayed datagram was moved to its front:
/// every byte one place down, the last byte left where it was.
pub open spec fn shifted_down(buf: Seq<u8>) -> Seq<u8> {
    buf.skip(1).push(buf.last())
}

/// Takes apart a datagram of `len` bytes received into `buf`. From the relay,
/// a payload datagram has its kind byte removed by moving the rest of the
/// buffer down one place, a close datagram closes the pipe, and any other is
/// passed over; from anyone else the datagram is the payload as it is.
pub fn unwrap_incoming(buf: &mut [u8], len: usize, from_relay: bool) -> (r: Received)
    requires
        from_relay ==> old(buf)@.len() >= 1,
        len <= old(buf)@.len(),
        from_relay && old(buf)@[0] == CommunicatePacket::DATA ==> len >= 1,
    ensures
        from_relay && old(buf)@[0] == CommunicatePacket::DATA ==> r == Received::Payload(
            (len - 1) as usize,
        ) && final(buf)@ == shifted_down(old(buf)@),
        from_relay && old(buf)@[0] == CommunicatePacket::CLOSE ==> r == Received::Closed && final(buf)@ == old(
            buf,
        )@,
        from_relay && old(buf)@[0] != CommunicatePacket::DATA && old(buf)@[0] != CommunicatePacket::CLOSE ==> r
            == Received::Skipped && final(buf)@ == old(buf)@,
        !from_relay ==> r == Received::Payload(len) && final(buf)@ == old(buf)@,
{
    if !from_relay {
        return Received::Payload(len);
    }
    if buf[0] == CommunicatePacket::DATA {
        let n = buf.len();
        let ghost orig = buf@;
        let mut i: usize = 1;
        while i < n
            invariant
                1 <= i <= n,
                n == orig.len(),
                buf@.len() == n,
                forall|j: int| 0 <= j < i - 1 ==> buf@[j] == orig[j + 1],
                forall|j: int| i - 1 <= j < n ==> buf@[j] == orig[j],
            decreases n - i,
        {
            let b = buf[i];
            buf[i - 1] = b;
            i = i + 1;
        }
        assert(buf@ =~= shifted_down(orig));
        Received::Payload(len - 1)
    } else if buf[0] == CommunicatePacket::CLOSE {
        Received::Closed
    } else {
        Received::Skipped
    }
}

/// A payload sent to anyone but the relay goes whole and unchanged, whatever
/// its length; towards the relay it goes whole behind one kind byte.
pub proof fn lemma_framing_keeps_payload(payload: Seq<u8>)
    ensures
        framed(payload, false) == payload,
        framed(payload, true).len() == payload.len() + 1,
        framed(payload, true)[0] == CommunicatePacket::DATA,
        framed(payload, true).skip(1) == payload,
{
    assert(framed(payload, true).skip(1) =~= payload);
}

/// A payload framed towards the relay and passed through it unchanged comes
/// out at the other end, at the front of the receive buffer, as it went in.
pub proof fn lemma_frame_unwrap(payload: Seq<u8>, buf: Seq<u8>, len: int)
    requires
        len == payload.len() + 1,
        len <= buf.len(),
        buf.take(len) == framed(payload, true),
    ensures
        buf[0] == CommunicatePacket::DATA,
        shifted_down(buf).take(len - 1) == payload,
{
    assert(buf[0] == buf.take(len)[0]);
    assert forall|j: int| 0 <= j < len - 1 implies #[trigger] shifted_down(buf)[j] == payload[j] by {
        assert(buf.take(len)[j + 1] == buf[j + 1]);
    }
    assert(shifted_down(buf).take(len - 1) =~= payload);
}

} // verus!
