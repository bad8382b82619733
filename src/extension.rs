use vstd::prelude::*;

use crate::bencode::{
    bytes_text, decode_bencoded_vec, decode_bencoded_vec_start_at, dict_lookup, encoded_at,
    encoding, extend_bytes, int_entry, int_text, is_canonical, push_digits, push_int, Value,
};
use crate::error::Error;
use crate::torrent::{info_matches, info_value_ok, Info};
use crate::tracker::LISTEN_PORT;

verus! {

/// `m`
pub const KEY_M: [u8; 1] = [109];

/// `ut_metadata`
pub const KEY_UT_METADATA: [u8; 11] = [117, 116, 95, 109, 101, 116, 97, 100, 97, 116, 97];

/// `ut_pex`
pub const KEY_UT_PEX: [u8; 6] = [117, 116, 95, 112, 101, 120];

/// `p`
pub const KEY_P: [u8; 1] = [112];

/// `metadata_size`
pub const KEY_METADATA_SIZE: [u8; 13] = [109, 101, 116, 97, 100, 97, 116, 97, 95, 115, 105, 122, 101];

/// `msg_type`
pub const KEY_MSG_TYPE: [u8; 8] = [109, 115, 103, 95, 116, 121, 112, 101];

/// `piece`
pub const KEY_PIECE: [u8; 5] = [112, 105, 101, 99, 101];

/// `total_size`
pub const KEY_TOTAL_SIZE: [u8; 10] = [116, 111, 116, 97, 108, 95, 115, 105, 122, 101];

/// The id this client assigns to `ut_metadata` messages sent to it.
pub const UT_METADATA_ID: u8 = 1;

/// The id this client assigns to `ut_pex` messages sent to it.
pub const UT_PEX_ID: u8 = 2;

/// `i<n>e`
pub open spec fn int_item(n: int) -> Seq<u8> {
    seq![105u8] + int_text(n) + seq![101u8]
}

/// `<key>i<n>e` when there is a number, nothing otherwise.
pub open spec fn opt_entry(key: Seq<u8>, o: Option<int>) -> Seq<u8> {
    match o {
        Some(n) => bytes_text(key) + int_item(n),
        None => Seq::empty(),
    }
}

/// The integer when it lies in `0..=max`.
pub open spec fn bounded(o: Option<int>, max: int) -> Option<int> {
    match o {
        Some(i) => if 0 <= i <= max {
            Some(i)
        } else {
            None
        },
        None => None,
    }
}

pub open spec fn opt_u8(o: Option<u8>) -> Option<int> {
    match o {
        Some(x) => Some(x as int),
        None => None,
    }
}

pub open spec fn opt_u16(o: Option<u16>) -> Option<int> {
    match o {
        Some(x) => Some(x as int),
        None => None,
    }
}

pub open spec fn opt_u32(o: Option<u32>) -> Option<int> {
    match o {
        Some(x) => Some(x as int),
        None => None,
    }
}

/// Appends `<len>:<key>`.
fn push_key(key: &[u8], out: &mut Vec<u8>)
    ensures
        final(out)@ == old(out)@ + bytes_text(key@),
{
    push_digits(key.len() as u64, out);
    out.push(58u8);
    extend_bytes(out, key);
}

/// Appends `i<n>e`.
fn push_int_item(n: i64, out: &mut Vec<u8>)
    ensures
        final(out)@ == old(out)@ + int_item(n as int),
{
    out.push(105u8);
    push_int(n, out);
    out.push(101u8);
}

/// Appends `<key>i<n>e` when there is a number.
fn push_opt_entry(key: &[u8], o: Option<i64>, out: &mut Vec<u8>)
    ensures
        final(out)@ == old(out)@ + opt_entry(
            key@,
            match o {
                Some(x) => Some(x as int),
                None => None,
            },
        ),
{
    match o {
        Some(n) => {
            push_key(key, out);
            push_int_item(n, out);
        },
        None => {
            assert(old(out)@ + Seq::<u8>::empty() == old(out)@);
        },
    }
}

/// The integer under `key` of a dictionary, when it lies in `0..=max`.
fn bounded_int(v: &Value, key: &[u8], max: i64) -> (r: Option<i64>)
    requires
        max >= 0,
    ensures
        match r {
            Some(x) => Some(x as int),
            None => None,
        } == bounded(int_entry(*v, key@), max as int),
{
    match v.get_int(key) {
        Some(i) => if 0 <= i && i <= max {
            Some(i)
        } else {
            None
        },
        None => None,
    }
}

/// The message ids a peer assigns to the extensions it supports.
#[derive(Debug, Clone, Copy)]
pub struct ExtensionMetadata {
    pub ut_metadata: u8,
    pub ut_pex: Option<u8>,
}

/// The payload of an extension-protocol handshake.
#[derive(Debug, Clone, Copy)]
pub struct ExtensionHeader {
    pub m: ExtensionMetadata,
    pub p: Option<u16>,
    pub metadata_size: Option<u32>,
}

impl ExtensionHeader {
    /// The canonical bencoding, keys in increasing order.
    pub open spec fn wire(&self) -> Seq<u8> {
        seq![100u8] + bytes_text(KEY_M@) + seq![100u8] + bytes_text(KEY_UT_METADATA@) + int_item(
            self.m.ut_metadata as int,
        ) + opt_entry(KEY_UT_PEX@, opt_u8(self.m.ut_pex)) + seq![101u8] + opt_entry(
            KEY_METADATA_SIZE@,
            opt_u32(self.metadata_size),
        ) + opt_entry(KEY_P@, opt_u16(self.p)) + seq![101u8]
    }

    /// This client's handshake: `ut_metadata` as 1, `ut_pex` as 2, the
    /// listening port, and no metadata size, which it does not know yet.
    pub fn new() -> (r: ExtensionHeader)
        ensures
            r.m.ut_metadata == UT_METADATA_ID,
            r.m.ut_pex == Some(UT_PEX_ID),
            r.p == Some(LISTEN_PORT),
            r.metadata_size is None,
    {
        ExtensionHeader {
            m: ExtensionMetadata { ut_metadata: UT_METADATA_ID, ut_pex: Some(UT_PEX_ID) },
            p: Some(LISTEN_PORT),
            metadata_size: None,
        }
    }

    /// The bencoded dictionary.
    pub fn encode(&self) -> (r: Vec<u8>)
        ensures
            r@ == self.wire(),
    {
        let mut out: Vec<u8> = Vec::new();
        out.push(100u8);
        push_key(&KEY_M, &mut out);
        out.push(100u8);
        push_key(&KEY_UT_METADATA, &mut out);
        push_int_item(self.m.ut_metadata as i64, &mut out);
        push_opt_entry(
            &KEY_UT_PEX,
            match self.m.ut_pex {
                Some(x) => Some(x as i64),
                None => None,
            },
            &mut out,
        );
        out.push(101u8);
        push_opt_entry(
            &KEY_METADATA_SIZE,
            match self.metadata_size {
                Some(x) => Some(x as i64),
                None => None,
            },
            &mut out,
        );
        push_opt_entry(
            &KEY_P,
            match self.p {
                Some(x) => Some(x as i64),
                None => None,
            },
            &mut out,
        );
        out.push(101u8);
        out
    }

    /// Reads a peer's extension handshake. A peer that assigns no id to
    /// `ut_metadata` does not support the metadata exchange.
    pub fn from_value(v: &Value) -> (r: Result<ExtensionHeader, Error>)
        ensures
            r is Ok <==> (dict_lookup(*v, KEY_M@) matches Some(mv) && bounded(
                int_entry(mv, KEY_UT_METADATA@),
                255,
            ) is Some),
            r matches Ok(h) ==> {
                let mv = dict_lookup(*v, KEY_M@).unwrap();
                &&& Some(h.m.ut_metadata as int) == int_entry(mv, KEY_UT_METADATA@)
                &&& opt_u8(h.m.ut_pex) == bounded(int_entry(mv, KEY_UT_PEX@), 255)
                &&& opt_u16(h.p) == bounded(int_entry(*v, KEY_P@), 65535)
                &&& opt_u32(h.metadata_size) == bounded(
                    int_entry(*v, KEY_METADATA_SIZE@),
                    4294967295,
                )
            },
            r matches Err(e) ==> e == Error::ExtensionUnsupported,
    {
        let mv = match v.get(&KEY_M) {
            Some(mv) => mv,
            None => {
                return Err(Error::ExtensionUnsupported);
            },
        };
        let ut_metadata = match bounded_int(mv, &KEY_UT_METADATA, 255) {
            Some(x) => x as u8,
            None => {
                return Err(Error::ExtensionUnsupported);
            },
        };
        let ut_pex = match bounded_int(mv, &KEY_UT_PEX, 255) {
            Some(x) => Some(x as u8),
            None => None,
        };
        let p = match bounded_int(v, &KEY_P, 65535) {
            Some(x) => Some(x as u16),
            None => None,
        };
        let metadata_size = match bounded_int(v, &KEY_METADATA_SIZE, 4294967295) {
            Some(x) => Some(x as u32),
            None => None,
        };
        Ok(ExtensionHeader { m: ExtensionMetadata { ut_metadata, ut_pex }, p, metadata_size })
    }
}

/// The kinds of metadata message.
#[derive(Debug, Clone, Copy, PartialEq, Eq, Structural)]
pub enum ExtensionMessageType {
    Request,
    Data,
    Reject,
}

impl ExtensionMessageType {
    /// The number that stands for the kind on the wire.
    pub open spec fn spec_code(self) -> int {
        match self {
            ExtensionMessageType::Request => 0,
            ExtensionMessageType::Data => 1,
            ExtensionMessageType::Reject => 2,
        }
    }

    /// The number that stands for the kind on the wire.
    pub fn code(&self) -> (r: i64)
        ensures
            r == self.spec_code(),
    {
        match self {
            ExtensionMessageType::Request => 0,
            ExtensionMessageType::Data => 1,
            ExtensionMessageType::Reject => 2,
        }
    }
}

/// The dictionary of a metadata message.
#[derive(Debug, Clone, Copy)]
pub struct ExtensionMessage {
    pub msg_type: ExtensionMessageType,
    pub piece: u8,
    pub total_size: Option<u32>,
}

impl ExtensionMessage {
    /// The canonical bencoding, keys in increasing order.
    pub open spec fn wire(&self) -> Seq<u8> {
        seq![100u8] + bytes_text(KEY_MSG_TYPE@) + int_item(self.msg_type.spec_code())
            + bytes_text(KEY_PIECE@) + int_item(self.piece as int) + opt_entry(
            KEY_TOTAL_SIZE@,
            opt_u32(self.total_size),
        ) + seq![101u8]
    }

    /// A request for metadata piece `piece`.
    pub fn request(piece: u8) -> (r: ExtensionMessage)
        ensures
            r.msg_type == ExtensionMessageType::Request,
            r.piece == piece,
            r.total_size is None,
    {
        ExtensionMessage { msg_type: ExtensionMessageType::Request, piece, total_size: None }
    }

    /// The bencoded dictionary.
    pub fn encode(&self) -> (r: Vec<u8>)
        ensures
            r@ == self.wire(),
    {
        let mut out: Vec<u8> = Vec::new();
        out.push(100u8);
        push_key(&KEY_MSG_TYPE, &mut out);
        push_int_item(self.msg_type.code(), &mut out);
        push_key(&KEY_PIECE, &mut out);
        push_int_item(self.piece as i64, &mut out);
        push_opt_entry(
            &KEY_TOTAL_SIZE,
            match self.total_size {
                Some(x) => Some(x as i64),
                None => None,
            },
            &mut out,
        );
        out.push(101u8);
        out
    }

    /// Reads a metadata message's dictionary.
    pub fn from_value(v: &Value) -> (r: Result<ExtensionMessage, Error>)
        ensures
            r is Ok <==> (bounded(int_entry(*v, KEY_MSG_TYPE@), 2) is Some && bounded(
                int_entry(*v, KEY_PIECE@),
                255,
            ) is Some),
            r matches Ok(m) ==> {
                &&& Some(m.msg_type.spec_code()) == int_entry(*v, KEY_MSG_TYPE@)
                &&& Some(m.piece as int) == int_entry(*v, KEY_PIECE@)
                &&& opt_u32(m.total_size) == bounded(int_entry(*v, KEY_TOTAL_SIZE@), 4294967295)
            },
            r matches Err(e) ==> e == Error::ProtocolViolation,
    {
        let msg_type = match bounded_int(v, &KEY_MSG_TYPE, 2) {
            Some(0) => ExtensionMessageType::Request,
            Some(1) => ExtensionMessageType::Data,
            Some(_) => ExtensionMessageType::Reject,
            None => {
                return Err(Error::ProtocolViolation);
            },
        };
        let piece = match bounded_int(v, &KEY_PIECE, 255) {
            Some(x) => x as u8,
            None => {
                return Err(Error::ProtocolViolation);
            },
        };
        let total_size = match bounded_int(v, &KEY_TOTAL_SIZE, 4294967295) {
            Some(x) => Some(x as u32),
            None => None,
        };
        Ok(ExtensionMessage { msg_type, piece, total_size })
    }
}

/// The payload of this client's extension handshake: extension id 0, then
/// the bencoded header.
pub fn extension_handshake_payload(header: &ExtensionHeader) -> (r: Vec<u8>)
    ensures
        r@ == seq![0u8] + header.wire(),
{
    let mut out: Vec<u8> = Vec::new();
    out.push(0u8);
    let body = header.encode();
    extend_bytes(&mut out, body.as_slice());
    out
}

/// The payload that asks a peer for the first metadata piece, under the id
/// the peer assigned to `ut_metadata`.
pub fn metadata_request_payload(extension_id: u8) -> (r: Vec<u8>)
    ensures
        r@ == seq![extension_id] + (ExtensionMessage {
            msg_type: ExtensionMessageType::Request,
            piece: 0,
            total_size: None,
        }).wire(),
{
    let mut out: Vec<u8> = Vec::new();
    out.push(extension_id);
    let body = ExtensionMessage::request(0).encode();
    extend_bytes(&mut out, body.as_slice());
    out
}

/// An extension handshake this client can use: it assigns an id in
/// `0..=255` to `ut_metadata`.
pub open spec fn header_value_ok(v: Value) -> bool {
    dict_lookup(v, KEY_M@) matches Some(mv) && bounded(int_entry(mv, KEY_UT_METADATA@), 255) is Some
}

/// The number of metadata bytes that a metadata message announces, when it
/// is a DATA message with a piece number and a size.
pub open spec fn data_size(v: Value) -> Option<int> {
    if int_entry(v, KEY_MSG_TYPE@) == Some(1int) && bounded(int_entry(v, KEY_PIECE@), 255) is Some {
        bounded(int_entry(v, KEY_TOTAL_SIZE@), 4294967295)
    } else {
        None
    }
}

/// A metadata message `v` whose encoding ends at `end` in payload `p` does
/// not carry a usable `info` dictionary at the end of the payload.
pub open spec fn metadata_reply_rejected(v: Value, p: Seq<u8>, end: int) -> bool {
    match data_size(v) {
        None => true,
        Some(n) => n > p.len() - end || {
            let tail = p.subrange(p.len() - n, p.len() as int);
            ||| !(exists|w: Value| is_canonical(w) && #[trigger] encoding(w) == tail)
            ||| exists|w: Value| is_canonical(w) && #[trigger] encoding(w) == tail && !info_value_ok(w)
        },
    }
}

/// Reads a peer's extension handshake from an EXTENSION payload: an id byte,
/// then the bencoded header.
pub fn header_from_payload(payload: &[u8]) -> (r: Result<ExtensionHeader, Error>)
    ensures
        r matches Ok(h) ==> exists|v: Value, end: int|
            #[trigger] encoding(v) == #[trigger] payload@.subrange(1, end) && dict_lookup(v, KEY_M@) is Some
                && Some(h.m.ut_metadata as int) == int_entry(
                dict_lookup(v, KEY_M@).unwrap(),
                KEY_UT_METADATA@,
            ),
        r is Err ==> {
            ||| payload@.len() < 1
            ||| !(exists|w: Value| is_canonical(w) && #[trigger] encoded_at(payload@, 1, w))
            ||| exists|v: Value|
                is_canonical(v) && #[trigger] encoded_at(payload@, 1, v) && !header_value_ok(v)
        },        r matches Err(e) ==> (e == Error::ExtensionUnsupported <==> (payload@.len() >= 1 && exists|
            w: Value,
        | is_canonical(w) && #[trigger] encoded_at(payload@, 1, w))),
{
    if payload.len() < 1 {
        return Err(Error::ProtocolViolation);
    }
    match decode_bencoded_vec_start_at(payload, 1) {
        Ok((v, end)) => {
            let r = ExtensionHeader::from_value(&v);
            proof {
                assert(payload@.subrange(1, payload@.len() as int).subrange(0, encoding(v).len() as int)
                    =~= payload@.subrange(1, end as int));
                assert(encoded_at(payload@, 1, v));
            }
            r
        },
        Err(e) => Err(Error::BencodeParse(e)),
    }
}

/// Reads the `info` dictionary that a metadata DATA message carries: the
/// message's dictionary says how many bytes of metadata follow it, and the
/// metadata is that many bytes at the end of the payload.
pub fn metadata_from_payload(payload: &[u8]) -> (r: Result<Info, Error>)
    ensures
        r matches Ok(info) ==> {
            &&& info.wf()
            &&& exists|v: Value|
                is_canonical(v) && #[trigger] encoding(v) == info.encoded@ && info_value_ok(v)
                    && info_matches(info, v)
            &&& exists|v: Value, end: int|
                1 < end <= payload@.len() && is_canonical(v) && #[trigger] encoding(v)
                    == #[trigger] payload@.subrange(1, end) && data_size(v) == Some(
                    info.encoded@.len() as int,
                ) && info.encoded@.len() <= payload@.len() - end
            &&& info.encoded@.len() <= payload@.len()
            &&& info.encoded@ == payload@.subrange(
                payload@.len() - info.encoded@.len(),
                payload@.len() as int,
            )
        },
        r is Err ==> {
            ||| payload@.len() < 1
            ||| !(exists|w: Value| is_canonical(w) && #[trigger] encoded_at(payload@, 1, w))
            ||| exists|v: Value, end: int|
                1 < end <= payload@.len() && is_canonical(v) && #[trigger] encoding(v)
                    == #[trigger] payload@.subrange(1, end) && metadata_reply_rejected(
                    v,
                    payload@,
                    end,
                )
        },
{
    if payload.len() < 1 {
        return Err(Error::ProtocolViolation);
    }
    let (v, end) = match decode_bencoded_vec_start_at(payload, 1) {
        Ok(p) => p,
        Err(e) => {
            return Err(Error::BencodeParse(e));
        },
    };
    let msg = match ExtensionMessage::from_value(&v) {
        Ok(m) => m,
        Err(e) => {
            assert(metadata_reply_rejected(v, payload@, end as int));
            return Err(e);
        },
    };
    if msg.msg_type != ExtensionMessageType::Data {
        assert(metadata_reply_rejected(v, payload@, end as int));
        return Err(Error::ExtensionUnsupported);
    }
    let size = match msg.total_size {
        Some(n) => n as usize,
        None => {
            assert(metadata_reply_rejected(v, payload@, end as int));
            return Err(Error::ProtocolViolation);
        },
    };
    if size > payload.len() - end {
        assert(metadata_reply_rejected(v, payload@, end as int));
        return Err(Error::ProtocolViolation);
    }
    let start = payload.len() - size;
    let mut bytes: Vec<u8> = Vec::new();
    extend_bytes(&mut bytes, &payload[start..payload.len()]);
    let iv = match decode_bencoded_vec(&bytes) {
        Ok(iv) => iv,
        Err(e) => {
            assert(metadata_reply_rejected(v, payload@, end as int));
            return Err(Error::BencodeParse(e));
        },
    };
    let r = Info::from_value(&iv, bytes);
    proof {
        if r is Err {
            assert(metadata_reply_rejected(v, payload@, end as int));
        } else {
            assert(data_size(v) == Some(size as int));
            assert(encoding(v) == payload@.subrange(1, end as int));
        }
    }
    r
}

} // verus!
