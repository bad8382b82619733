use vstd::prelude::*;

use crate::bencode::{
    bytes_entry, bytes_equal, decode_bencoded_vec, digit_text, dict_lookup, encoding, extend_bytes,
    int_entry, is_canonical, push_digits, Value,
};
use crate::error::Error;
use crate::peer::gen_peer_id;

verus! {

/// `peers`
pub const KEY_PEERS: [u8; 5] = [112, 101, 101, 114, 115];

/// `interval`
pub const KEY_INTERVAL: [u8; 8] = [105, 110, 116, 101, 114, 118, 97, 108];

/// `peer_id=`
pub const PARAM_PEER_ID: [u8; 8] = [112, 101, 101, 114, 95, 105, 100, 61];

/// `&port=`
pub const PARAM_PORT: [u8; 6] = [38, 112, 111, 114, 116, 61];

/// `&uploaded=`
pub const PARAM_UPLOADED: [u8; 10] = [38, 117, 112, 108, 111, 97, 100, 101, 100, 61];

/// `&downloaded=`
pub const PARAM_DOWNLOADED: [u8; 12] = [38, 100, 111, 119, 110, 108, 111, 97, 100, 101, 100, 61];

/// `&left=`
pub const PARAM_LEFT: [u8; 6] = [38, 108, 101, 102, 116, 61];

/// `&compact=`
pub const PARAM_COMPACT: [u8; 9] = [38, 99, 111, 109, 112, 97, 99, 116, 61];

/// `&info_hash=`
pub const PARAM_INFO_HASH: [u8; 11] = [38, 105, 110, 102, 111, 95, 104, 97, 115, 104, 61];

/// `http://`
pub const SCHEME_HTTP: [u8; 7] = [104, 116, 116, 112, 58, 47, 47];

/// `https://`
pub const SCHEME_HTTPS: [u8; 8] = [104, 116, 116, 112, 115, 58, 47, 47];

/// The port this client announces.
pub const LISTEN_PORT: u16 = 6881;

/// `s` begins with `prefix`.
pub open spec fn starts_with(s: Seq<u8>, prefix: Seq<u8>) -> bool {
    prefix.len() <= s.len() && s.subrange(0, prefix.len() as int) == prefix
}

/// Whether `s` begins with `prefix`.
pub fn has_prefix(s: &[u8], prefix: &[u8]) -> (r: bool)
    ensures
        r == starts_with(s@, prefix@),
{
    if prefix.len() > s.len() {
        return false;
    }
    bytes_equal(&s[0..prefix.len()], prefix)
}

/// The lowercase hexadecimal digit of `n`, below 16.
pub open spec fn hex_digit(n: u8) -> u8 {
    if n < 10 {
        (48 + n) as u8
    } else {
        (87 + n) as u8
    }
}

/// Every byte written as `%` and two lowercase hexadecimal digits.
pub open spec fn percent_encoded(b: Seq<u8>) -> Seq<u8>
    decreases b.len(),
{
    if b.len() == 0 {
        Seq::empty()
    } else {
        percent_encoded(b.drop_last()) + seq![37u8, hex_digit(b.last() / 16), hex_digit(b.last() % 16)]
    }
}

/// Appends every byte of `b` as `%XX`, lowercase.
pub fn push_percent_encoded(b: &[u8], out: &mut Vec<u8>)
    ensures
        final(out)@ == old(out)@ + percent_encoded(b@),
{
    let mut k: usize = 0;
    while k < b.len()
        invariant
            k <= b@.len(),
            out@ == old(out)@ + percent_encoded(b@.subrange(0, k as int)),
        decreases b@.len() - k,
    {
        let hi = b[k] / 16;
        let lo = b[k] % 16;
        out.push(37u8);
        out.push(if hi < 10 { 48 + hi } else { 87 + hi });
        out.push(if lo < 10 { 48 + lo } else { 87 + lo });
        assert(b@.subrange(0, k + 1).drop_last() == b@.subrange(0, k as int));
        k = k + 1;
    }
    assert(b@.subrange(0, k as int) == b@);
}

/// The query of an announce request, as sent to the tracker.
#[derive(Debug, Clone, Copy)]
pub struct TrackerRequest {
    pub peer_id: [u8; 20],
    pub port: u16,
    pub uploaded: u64,
    pub downloaded: u64,
    pub left: u64,
    pub compact: u8,
}

impl TrackerRequest {
    /// An announce for a download with `left` bytes still to fetch, under a
    /// fresh peer id.
    pub fn new(left: u64) -> (r: TrackerRequest)
        ensures
            crate::bencode::all_digits(r.peer_id@),
            r.port == LISTEN_PORT,
            r.uploaded == 0,
            r.downloaded == 0,
            r.left == left,
            r.compact == 1,
    {
        TrackerRequest {
            peer_id: gen_peer_id(),
            port: LISTEN_PORT,
            uploaded: 0,
            downloaded: 0,
            left,
            compact: 1,
        }
    }

    /// The full announce URL for `info_hash`: the announce URL, then the
    /// query parameters; the peer id and the info-hash are written byte by
    /// byte as `%XX`.
    pub open spec fn spec_url(&self, announce: Seq<u8>, info_hash: Seq<u8>) -> Seq<u8> {
        announce + seq![63u8] + PARAM_PEER_ID@ + percent_encoded(self.peer_id@) + PARAM_PORT@
            + digit_text(self.port as nat) + PARAM_UPLOADED@ + digit_text(self.uploaded as nat)
            + PARAM_DOWNLOADED@ + digit_text(self.downloaded as nat) + PARAM_LEFT@ + digit_text(
            self.left as nat,
        ) + PARAM_COMPACT@ + digit_text(self.compact as nat) + PARAM_INFO_HASH@
            + percent_encoded(info_hash)
    }

    /// The announce URL to request; only HTTP and HTTPS trackers are
    /// supported.
    pub fn url(&self, announce: &[u8], info_hash: &[u8; 20]) -> (r: Result<Vec<u8>, Error>)
        ensures
            r is Ok <==> (starts_with(announce@, SCHEME_HTTP@) || starts_with(
                announce@,
                SCHEME_HTTPS@,
            )),
            r matches Ok(u) ==> u@ == self.spec_url(announce@, info_hash@),
            r matches Err(e) ==> e == Error::TrackerTransport,
    {
        if !has_prefix(announce, &SCHEME_HTTP) && !has_prefix(announce, &SCHEME_HTTPS) {
            return Err(Error::TrackerTransport);
        }
        let mut out: Vec<u8> = Vec::new();
        extend_bytes(&mut out, announce);
        out.push(63u8);
        extend_bytes(&mut out, &PARAM_PEER_ID);
        push_percent_encoded(&self.peer_id, &mut out);
        extend_bytes(&mut out, &PARAM_PORT);
        push_digits(self.port as u64, &mut out);
        extend_bytes(&mut out, &PARAM_UPLOADED);
        push_digits(self.uploaded, &mut out);
        extend_bytes(&mut out, &PARAM_DOWNLOADED);
        push_digits(self.downloaded, &mut out);
        extend_bytes(&mut out, &PARAM_LEFT);
        push_digits(self.left, &mut out);
        extend_bytes(&mut out, &PARAM_COMPACT);
        push_digits(self.compact as u64, &mut out);
        extend_bytes(&mut out, &PARAM_INFO_HASH);
        push_percent_encoded(info_hash, &mut out);
        Ok(out)
    }
}

/// An IPv4 peer endpoint.
#[derive(Debug, Clone, Copy, PartialEq, Eq)]
pub struct PeerAddr {
    pub ip: [u8; 4],
    pub port: u16,
}

/// Peer `i` of a compact peer list: four address bytes, then a big-endian port.
pub open spec fn compact_peer_matches(p: PeerAddr, bytes: Seq<u8>, i: int) -> bool {
    &&& p.ip@ == bytes.subrange(6 * i, 6 * i + 4)
    &&& p.port == bytes[6 * i + 4] as nat * 256 + bytes[6 * i + 5] as nat
}

/// Reads the endpoints of a compact peer list, ignoring a trailing partial
/// entry.
fn compact_peers(bytes: &[u8]) -> (r: Vec<PeerAddr>)
    ensures
        r@.len() == bytes@.len() / 6,
        forall|i: int| 0 <= i < r@.len() ==> #[trigger] compact_peer_matches(r@[i], bytes@, i),
{
    let total = bytes.len();
    let n = total / 6;
    let mut out: Vec<PeerAddr> = Vec::new();
    let mut i: usize = 0;
    while i < n
        invariant
            i <= n,
            n == bytes@.len() / 6,
            total == bytes@.len(),
            out@.len() == i,
            forall|j: int| 0 <= j < i ==> #[trigger] compact_peer_matches(out@[j], bytes@, j),
        decreases n - i,
    {
        assert(6 * i + 6 <= total);
        let at = 6 * i;
        let ip: [u8; 4] = crate::peer::read_array(bytes, at);
        let port = (bytes[at + 4] as u16) * 256 + bytes[at + 5] as u16;
        out.push(PeerAddr { ip, port });
        i = i + 1;
    }
    out
}

/// A list of peer endpoints.
#[derive(Debug)]
pub struct Peers(pub Vec<PeerAddr>);

impl Peers {
    /// Reads a compact peer list: six bytes per peer.
    pub fn from_compact(bytes: &[u8]) -> (r: Result<Peers, Error>)
        ensures
            r is Ok <==> bytes@.len() % 6 == 0,
            r matches Ok(p) ==> {
                &&& p.0@.len() == bytes@.len() / 6
                &&& forall|i: int|
                    0 <= i < p.0@.len() ==> #[trigger] compact_peer_matches(p.0@[i], bytes@, i)
            },
            r matches Err(e) ==> e == Error::TrackerDecode,
    {
        if bytes.len() % 6 != 0 {
            return Err(Error::TrackerDecode);
        }
        Ok(Peers(compact_peers(bytes)))
    }

    /// The compact form: six bytes per peer.
    pub fn to_compact(&self) -> (r: Vec<u8>)
        ensures
            r@.len() == 6 * self.0@.len(),
            forall|i: int| 0 <= i < self.0@.len() ==> #[trigger] compact_peer_matches(self.0@[i], r@, i),
    {
        let mut out: Vec<u8> = Vec::new();
        let mut i: usize = 0;
        while i < self.0.len()
            invariant
                i <= self.0@.len(),
                out@.len() == 6 * i,
                forall|j: int| 0 <= j < i ==> #[trigger] compact_peer_matches(self.0@[j], out@, j),
            decreases self.0@.len() - i,
        {
            let p = self.0[i];
            let ghost before = out@;
            extend_bytes(&mut out, &p.ip);
            out.push((p.port / 256) as u8);
            out.push((p.port % 256) as u8);
            proof {
                assert forall|j: int| 0 <= j < i + 1 implies #[trigger] compact_peer_matches(
                    self.0@[j],
                    out@,
                    j,
                ) by {
                    if j < i {
                        assert(compact_peer_matches(self.0@[j], before, j));
                        assert(out@.subrange(6 * j, 6 * j + 4) =~= before.subrange(6 * j, 6 * j + 4));
                        assert(out@[6 * j + 4] == before[6 * j + 4]);
                        assert(out@[6 * j + 5] == before[6 * j + 5]);
                    } else {
                        assert(out@.subrange(6 * j, 6 * j + 4) =~= p.ip@);
                        assert(out@[6 * j + 4] == (p.port / 256) as u8);
                        assert(out@[6 * j + 5] == (p.port % 256) as u8);
                        assert(p.port == (p.port / 256) * 256 + p.port % 256);
                        assert(self.0@[j] == p);
                    }
                }
            }
            i = i + 1;
        }
        out
    }
}

/// A tracker's answer: the re-announce interval, when given, and the
/// compact peer list.
#[derive(Debug)]
pub struct TrackerResponse {
    pub interval: Option<u32>,
    pub peers: Vec<u8>,
}

/// A tracker answer this client can use: a dictionary whose `peers` is a
/// byte string of whole six-byte entries. Anything else in it is ignored.
pub open spec fn response_value_ok(v: Value) -> bool {
    &&& v is Dict
    &&& bytes_entry(v, KEY_PEERS@) matches Some(p) && p.len() % 6 == 0
}

/// The `interval` of an answer, when it is an integer that fits in 32
/// unsigned bits.
pub open spec fn interval_of(v: Value) -> Option<int> {
    match int_entry(v, KEY_INTERVAL@) {
        Some(i) => if 0 <= i <= u32::MAX {
            Some(i)
        } else {
            None
        },
        None => None,
    }
}

impl TrackerResponse {
    /// Reads a tracker answer from its dictionary.
    pub fn from_value(v: &Value) -> (r: Result<TrackerResponse, Error>)
        ensures
            r is Ok <==> response_value_ok(*v),
            r matches Ok(t) ==> {
                &&& t.peers@ == bytes_entry(*v, KEY_PEERS@).unwrap()
                &&& match t.interval {
                    Some(i) => interval_of(*v) == Some(i as int),
                    None => interval_of(*v) is None,
                }
            },
            r matches Err(e) ==> e == Error::TrackerDecode,
    {
        if !(match v {
            Value::Dict(_) => true,
            _ => false,
        }) {
            return Err(Error::TrackerDecode);
        }
        let peers = match v.get_bytes(&KEY_PEERS) {
            Some(p) => p,
            None => {
                return Err(Error::TrackerDecode);
            },
        };
        if peers.len() % 6 != 0 {
            return Err(Error::TrackerDecode);
        }
        let interval = match v.get_int(&KEY_INTERVAL) {
            Some(i) => if 0 <= i && i <= 4294967295 {
                Some(i as u32)
            } else {
                None
            },
            None => None,
        };
        let mut copy: Vec<u8> = Vec::new();
        extend_bytes(&mut copy, peers.as_slice());
        Ok(TrackerResponse { interval, peers: copy })
    }

    /// Reads the bencoded body of a tracker's answer: it must be a canonical
    /// encoding of a usable answer.
    pub fn from_bytes(body: &Vec<u8>) -> (r: Result<TrackerResponse, Error>)
        ensures
            r matches Ok(t) ==> exists|v: Value|
                is_canonical(v) && #[trigger] encoding(v) == body@ && response_value_ok(v)
                    && t.peers@ == bytes_entry(v, KEY_PEERS@).unwrap(),
            r is Err ==> !(exists|w: Value| is_canonical(w) && #[trigger] encoding(w) == body@)
                || exists|v: Value|
                is_canonical(v) && #[trigger] encoding(v) == body@ && !response_value_ok(v),
            r matches Err(e) ==> e == Error::TrackerDecode,
    {
        match decode_bencoded_vec(body) {
            Ok(v) => TrackerResponse::from_value(&v),
            Err(_) => Err(Error::TrackerDecode),
        }
    }

    /// The peer endpoints of the answer, in order.
    pub fn peers(&self) -> (r: Vec<PeerAddr>)
        ensures
            r@.len() == self.peers@.len() / 6,
            forall|i: int| 0 <= i < r@.len() ==> #[trigger] compact_peer_matches(r@[i], self.peers@, i),
    {
        compact_peers(self.peers.as_slice())
    }
}

} // verus!
