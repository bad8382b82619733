use vstd::prelude::*;

use crate::bencode::{all_digits, bytes_equal, extend_bytes, is_digit};
use crate::error::Error;
use crate::random::random_below;

verus! {

/// `BitTorrent protocol`
pub const PROTOCOL: [u8; 19] = [
    66, 105, 116, 84, 111, 114, 114, 101, 110, 116, 32, 112, 114, 111, 116, 111, 99, 111, 108,
];

/// Reserved bytes that advertise the extension protocol: bit 20 from the
/// most significant end, that is `0x10` in byte 5.
pub const RESERVED: [u8; 8] = [0, 0, 0, 0, 0, 16, 0, 0];

/// The length of a handshake on the wire.
pub const HANDSHAKE_LEN: usize = 68;

/// Copies `N` bytes of `src` starting at `at`.
pub fn read_array<const N: usize>(src: &[u8], at: usize) -> (r: [u8; N])
    requires
        at + N <= src@.len(),
    ensures
        r@ == src@.subrange(at as int, at + N),
{
    let mut out = [0u8; N];
    let total = src.len();
    let mut k: usize = 0;
    while k < N
        invariant
            k <= N,
            at + N <= src@.len(),
            total == src@.len(),
            out@.len() == N,
            forall|j: int| 0 <= j < k ==> out@[j] == src@[at + j],
        decreases N - k,
    {
        out[k] = src[at + k];
        k = k + 1;
    }
    assert(out@ =~= src@.subrange(at as int, at + N));
    out
}

/// A fresh client identifier: 20 random ASCII decimal digits.
pub fn gen_peer_id() -> (r: [u8; 20])
    ensures
        all_digits(r@),
{
    let mut id = [0u8; 20];
    let mut k: usize = 0;
    while k < 20
        invariant
            k <= 20,
            id@.len() == 20,
            forall|j: int| 0 <= j < k ==> is_digit(#[trigger] id@[j]),
        decreases 20 - k,
    {
        let d = random_below(10);
        id[k] = 48 + d as u8;
        k = k + 1;
    }
    id
}

/// The 68-byte opening message of a peer connection.
#[derive(Debug, Clone, Copy)]
pub struct Handshake {
    pub length: u8,
    pub protocol: [u8; 19],
    pub reserved: [u8; 8],
    pub info_hash: [u8; 20],
    pub peer_id: [u8; 20],
}

impl Handshake {
    /// The wire form: length, protocol name, reserved bytes, info-hash, peer id.
    pub open spec fn wire(&self) -> Seq<u8> {
        seq![self.length] + self.protocol@ + self.reserved@ + self.info_hash@ + self.peer_id@
    }

    /// The extension-protocol bit of the reserved bytes.
    pub open spec fn spec_supports_extension(&self) -> bool {
        self.reserved@[5] & 16u8 != 0
    }

    /// This client's handshake for `info_hash`, under `peer_id`, advertising
    /// the extension protocol.
    pub fn with_peer_id(info_hash: [u8; 20], peer_id: [u8; 20]) -> (r: Handshake)
        ensures
            r.length == 19,
            r.protocol@ == PROTOCOL@,
            r.reserved@ == RESERVED@,
            r.info_hash == info_hash,
            r.peer_id == peer_id,
    {
        Handshake { length: 19, protocol: PROTOCOL, reserved: RESERVED, info_hash, peer_id }
    }

    /// This client's handshake for `info_hash`, under a fresh random peer id.
    pub fn new(info_hash: [u8; 20]) -> (r: Handshake)
        ensures
            r.length == 19,
            r.protocol@ == PROTOCOL@,
            r.reserved@ == RESERVED@,
            r.info_hash == info_hash,
            all_digits(r.peer_id@),
    {
        Handshake::with_peer_id(info_hash, gen_peer_id())
    }

    /// Whether the sender supports the extension protocol.
    pub fn supports_extension(&self) -> (r: bool)
        ensures
            r == self.spec_supports_extension(),
    {
        self.reserved[5] & 16u8 != 0
    }

    /// The 68 bytes sent on the wire.
    pub fn as_bytes(&self) -> (r: Vec<u8>)
        ensures
            r@ == self.wire(),
            r@.len() == HANDSHAKE_LEN,
    {
        let mut out: Vec<u8> = Vec::new();
        out.push(self.length);
        extend_bytes(&mut out, &self.protocol);
        extend_bytes(&mut out, &self.reserved);
        extend_bytes(&mut out, &self.info_hash);
        extend_bytes(&mut out, &self.peer_id);
        out
    }

    /// Reads a handshake from exactly 68 bytes.
    pub fn from_bytes(b: &[u8]) -> (r: Option<Handshake>)
        ensures
            r is Some <==> b@.len() == HANDSHAKE_LEN,
            r matches Some(h) ==> h.wire() == b@,
    {
        if b.len() != HANDSHAKE_LEN {
            return None;
        }
        let h = Handshake {
            length: b[0],
            protocol: read_array(b, 1),
            reserved: read_array(b, 20),
            info_hash: read_array(b, 28),
            peer_id: read_array(b, 48),
        };
        assert(h.wire() =~= b@);
        Some(h)
    }

    /// Checks the remote side's handshake against this one: it must name the
    /// same protocol and the same info-hash.
    pub fn check_reply(&self, reply: &Handshake) -> (r: Result<(), Error>)
        ensures
            r is Ok <==> (reply.length == 19 && reply.protocol@ == PROTOCOL@ && reply.info_hash@
                == self.info_hash@),
            r matches Err(e) ==> e == Error::HandshakeMismatch,
    {
        if reply.length != 19 || !bytes_equal(&reply.protocol, &PROTOCOL) || !bytes_equal(
            &reply.info_hash,
            &self.info_hash,
        ) {
            Err(Error::HandshakeMismatch)
        } else {
            Ok(())
        }
    }
}

/// The four big-endian bytes of `x`.
pub open spec fn be32(x: u32) -> Seq<u8> {
    seq![
        (x / 16777216) as u8,
        ((x / 65536) % 256) as u8,
        ((x / 256) % 256) as u8,
        (x % 256) as u8,
    ]
}

/// The number that four big-endian bytes write.
pub open spec fn be32_value(b: Seq<u8>) -> nat {
    b[0] as nat * 16777216 + b[1] as nat * 65536 + b[2] as nat * 256 + b[3] as nat
}

/// The big-endian bytes of `x`.
pub fn to_be_bytes(x: u32) -> (r: [u8; 4])
    ensures
        r@ == be32(x),
{
    let r = [(x / 16777216) as u8, ((x / 65536) % 256) as u8, ((x / 256) % 256) as u8, (x % 256) as u8];
    assert(r@ =~= be32(x));
    r
}

/// The number written by the four big-endian bytes of `b` at `at`.
pub fn read_be_u32(b: &[u8], at: usize) -> (r: u32)
    requires
        at + 4 <= b@.len(),
    ensures
        r == be32_value(b@.subrange(at as int, at + 4)),
{
    let r = (b[at] as u32) * 16777216 + (b[at + 1] as u32) * 65536 + (b[at + 2] as u32) * 256 + (
    b[at + 3] as u32);
    r
}

/// The kinds of message this client sends or expects after the handshake.
#[derive(Debug, Clone, Copy, PartialEq, Eq, Structural)]
pub enum MessageId {
    Unchoke,
    Interested,
    Bitfield,
    Request,
    Piece,
    Extension,
}

impl MessageId {
    /// The id byte on the wire.
    pub open spec fn spec_code(self) -> u8 {
        match self {
            MessageId::Unchoke => 1,
            MessageId::Interested => 2,
            MessageId::Bitfield => 5,
            MessageId::Request => 6,
            MessageId::Piece => 7,
            MessageId::Extension => 20,
        }
    }

    /// The id byte on the wire.
    pub fn code(&self) -> (r: u8)
        ensures
            r == self.spec_code(),
    {
        match self {
            MessageId::Unchoke => 1,
            MessageId::Interested => 2,
            MessageId::Bitfield => 5,
            MessageId::Request => 6,
            MessageId::Piece => 7,
            MessageId::Extension => 20,
        }
    }

    /// The message kind that an id byte names, if it is one of ours.
    pub fn from_code(b: u8) -> (r: Option<MessageId>)
        ensures
            r matches Some(id) ==> id.spec_code() == b,
            r is None ==> forall|id: MessageId| id.spec_code() != b,
    {
        if b == 1 {
            Some(MessageId::Unchoke)
        } else if b == 2 {
            Some(MessageId::Interested)
        } else if b == 5 {
            Some(MessageId::Bitfield)
        } else if b == 6 {
            Some(MessageId::Request)
        } else if b == 7 {
            Some(MessageId::Piece)
        } else if b == 20 {
            Some(MessageId::Extension)
        } else {
            None
        }
    }
}

/// A framed message: `length` counts the id byte and the payload.
#[derive(Debug)]
pub struct Message {
    pub length: u32,
    pub id: MessageId,
    pub payload: Vec<u8>,
}

impl Message {
    /// The framing is consistent: the length counts the id and the payload.
    pub open spec fn wf(&self) -> bool {
        self.length == self.payload@.len() + 1
    }

    /// The bytes on the wire: big-endian length, id byte, payload.
    pub open spec fn wire(&self) -> Seq<u8> {
        be32(self.length) + seq![self.id.spec_code()] + self.payload@
    }

    /// A message of kind `id` around `payload`.
    pub fn new(id: MessageId, payload: Vec<u8>) -> (r: Message)
        requires
            payload@.len() < u32::MAX,
        ensures
            r.wf(),
            r.id == id,
            r.payload@ == payload@,
    {
        let length = (payload.len() + 1) as u32;
        Message { length, id, payload }
    }

    /// The bytes on the wire.
    pub fn as_bytes(&self) -> (r: Vec<u8>)
        ensures
            r@ == self.wire(),
    {
        let mut bytes: Vec<u8> = Vec::new();
        extend_bytes(&mut bytes, &to_be_bytes(self.length));
        bytes.push(self.id.code());
        extend_bytes(&mut bytes, self.payload.as_slice());
        bytes
    }

    /// Assembles a received message from its id byte and its payload; an id
    /// this client does not know is a protocol violation.
    pub fn from_parts(id_byte: u8, payload: Vec<u8>) -> (r: Result<Message, Error>)
        requires
            payload@.len() < u32::MAX,
        ensures
            r is Err <==> forall|id: MessageId| id.spec_code() != id_byte,
            r matches Ok(m) ==> m.wf() && m.id.spec_code() == id_byte && m.payload@ == payload@,
            r matches Err(e) ==> e == Error::ProtocolViolation,
    {
        match MessageId::from_code(id_byte) {
            Some(id) => Ok(Message::new(id, payload)),
            None => Err(Error::ProtocolViolation),
        }
    }

    /// Fails with a protocol violation unless the message is of kind `id`.
    pub fn expect(&self, id: MessageId) -> (r: Result<(), Error>)
        ensures
            r is Ok <==> self.id == id,
            r matches Err(e) ==> e == Error::ProtocolViolation,
    {
        if self.id == id {
            Ok(())
        } else {
            Err(Error::ProtocolViolation)
        }
    }

    /// The block a PIECE message carries: its piece index, its offset in the
    /// piece, and its bytes.
    pub fn piece_block(&self) -> (r: Result<(u32, u32, Vec<u8>), Error>)
        ensures
            r is Ok <==> (self.id == MessageId::Piece && self.payload@.len() >= 8),
            r matches Ok((index, begin, block)) ==> {
                &&& index == be32_value(self.payload@.subrange(0, 4))
                &&& begin == be32_value(self.payload@.subrange(4, 8))
                &&& block@ == self.payload@.subrange(8, self.payload@.len() as int)
            },
            r matches Err(e) ==> e == Error::ProtocolViolation,
    {
        if self.id != MessageId::Piece || self.payload.len() < 8 {
            return Err(Error::ProtocolViolation);
        }
        let index = read_be_u32(self.payload.as_slice(), 0);
        let begin = read_be_u32(self.payload.as_slice(), 4);
        let mut block: Vec<u8> = Vec::new();
        extend_bytes(&mut block, &self.payload.as_slice()[8..self.payload.len()]);
        Ok((index, begin, block))
    }
}

/// The length prefix of a message: the number its first four bytes write.
pub fn message_length(prefix: [u8; 4]) -> (r: u32)
    ensures
        r == be32_value(prefix@),
{
    assert(prefix@.subrange(0, 4) == prefix@);
    read_be_u32(&prefix, 0)
}

/// The payload of a REQUEST for `length` bytes at `begin` in piece `index`.
pub fn request_payload(index: u32, begin: u32, length: u32) -> (r: Vec<u8>)
    ensures
        r@ == be32(index) + be32(begin) + be32(length),
{
    let mut out: Vec<u8> = Vec::new();
    extend_bytes(&mut out, &to_be_bytes(index));
    extend_bytes(&mut out, &to_be_bytes(begin));
    extend_bytes(&mut out, &to_be_bytes(length));
    out
}

/// Whether the bitfield marks piece `i`: bit `i % 8` of byte `i / 8`,
/// counting from the most significant bit.
pub open spec fn bit_set(bits: Seq<u8>, i: int) -> bool {
    (bits[i / 8] >> ((7 - i % 8) as u8)) & 1u8 == 1u8
}

/// The pieces that a BITFIELD payload marks, in increasing order; bits past
/// the last piece are ignored.
pub fn pieces_from_bitfield(bits: &[u8], piece_count: usize) -> (r: Vec<usize>)
    ensures
        forall|k: int|
            0 <= k < r@.len() ==> #[trigger] r@[k] < piece_count && r@[k] / 8 < bits@.len()
                && bit_set(bits@, r@[k] as int),
        forall|a: int, b: int| 0 <= a < b < r@.len() ==> r@[a] < r@[b],
        forall|i: int|
            0 <= i < piece_count && i / 8 < bits@.len() && bit_set(bits@, i) ==> r@.contains(
                i as usize,
            ),
{
    let mut out: Vec<usize> = Vec::new();
    let mut i: usize = 0;
    while i < piece_count && i / 8 < bits.len()
        invariant
            i <= piece_count,
            forall|k: int|
                0 <= k < out@.len() ==> #[trigger] out@[k] < i && out@[k] / 8 < bits@.len()
                    && bit_set(bits@, out@[k] as int),
            forall|a: int, b: int| 0 <= a < b < out@.len() ==> out@[a] < out@[b],
            forall|j: int| 0 <= j < i && bit_set(bits@, j) ==> out@.contains(j as usize),
        decreases piece_count - i,
    {
        let byte = bits[i / 8];
        let shift = (7 - i % 8) as u8;
        if (byte >> shift) & 1u8 == 1u8 {
            let ghost before = out@;
            out.push(i);
            proof {
                assert forall|j: int| 0 <= j < i + 1 && bit_set(bits@, j) implies out@.contains(
                    j as usize,
                ) by {
                    if j < i {
                        let k = choose|k: int| 0 <= k < before.len() && before[k] == j as usize;
                        assert(out@[k] == j as usize);
                    } else {
                        assert(out@[before.len() as int] == i);
                    }
                }
            }
        } else {
            proof {
                assert(!bit_set(bits@, i as int));
            }
        }
        i = i + 1;
    }
    proof {
        assert forall|j: int|
            0 <= j < piece_count && j / 8 < bits@.len() && bit_set(bits@, j) implies out@.contains(
            j as usize,
        ) by {
            if j >= i {
                if i < piece_count {
                    assert(i / 8 >= bits@.len());
                    assert(j / 8 >= i / 8);
                }
            }
        }
    }
    out
}

} // verus!
