use vstd::prelude::*;

use crate::bencode::{bytes_equal, extend_bytes};
use crate::digest::{sha1_digest, sha1_of};
use crate::error::Error;
use crate::peer::read_array;
use crate::torrent::{Info, Torrent};
use crate::tracker::{has_prefix, starts_with};

verus! {

/// `magnet:`
pub const SCHEME_MAGNET: [u8; 7] = [109, 97, 103, 110, 101, 116, 58];

/// `xt`
pub const KEY_XT: [u8; 2] = [120, 116];

/// `dn`
pub const KEY_DN: [u8; 2] = [100, 110];

/// `tr`
pub const KEY_TR: [u8; 2] = [116, 114];

/// `urn:btih:`
pub const XT_PREFIX: [u8; 9] = [117, 114, 110, 58, 98, 116, 105, 104, 58];

/// The name/value pairs of an `application/x-www-form-urlencoded` query,
/// in order, each percent-decoded.
pub uninterp spec fn form_pairs_of(query: Seq<u8>) -> Seq<(Seq<u8>, Seq<u8>)>;

/// The serialization of a URL, when the text is a valid absolute URL.
pub uninterp spec fn url_parsed(text: Seq<u8>) -> Option<Seq<u8>>;

/// Relies on `url::form_urlencoded::parse`: the name/value pairs of the
/// query in order, percent-decoded; they depend on the query bytes alone.
#[verifier::external_body]
fn query_pairs(query: &[u8]) -> (r: Vec<(Vec<u8>, Vec<u8>)>)
    ensures
        r@.len() == form_pairs_of(query@).len(),
        forall|i: int|
            0 <= i < r@.len() ==> (#[trigger] r@[i]).0@ == form_pairs_of(query@)[i].0 && r@[i].1@
                == form_pairs_of(query@)[i].1,
{
    url::form_urlencoded::parse(query).map(
        |(k, v)| (k.into_owned().into_bytes(), v.into_owned().into_bytes()),
    ).collect()
}

/// Relies on `url::Url::parse`: whether the text is a valid absolute URL,
/// and its serialization when it is; both depend on the text alone.
#[verifier::external_body]
fn parse_url(text: &[u8]) -> (r: Option<Vec<u8>>)
    ensures
        match r {
            Some(u) => url_parsed(text@) == Some(u@),
            None => url_parsed(text@) is None,
        },
{
    match std::str::from_utf8(text) {
        Ok(t) => match url::Url::parse(t) {
            Ok(u) => Some(u.as_str().as_bytes().to_vec()),
            Err(_) => None,
        },
        Err(_) => None,
    }
}

/// An ASCII hexadecimal digit, in either case.
pub open spec fn is_hex_char(c: u8) -> bool {
    (48 <= c <= 57) || (65 <= c <= 70) || (97 <= c <= 102)
}

/// The value of a hexadecimal digit.
pub open spec fn hex_value(c: u8) -> int {
    if c <= 57 {
        c - 48
    } else if c <= 70 {
        c - 55
    } else {
        c - 87
    }
}

/// The bytes that pairs of hexadecimal digits write, high digit first.
pub open spec fn hex_decoded(s: Seq<u8>) -> Seq<u8> {
    Seq::new(s.len() / 2, |i: int| (hex_value(s[2 * i]) * 16 + hex_value(s[2 * i + 1])) as u8)
}

/// Relies on `hex::decode`: an even number of hexadecimal digits of either
/// case gives one byte per pair, high digit first; anything else is an error.
#[verifier::external_body]
fn hex_decode(s: &[u8]) -> (r: Option<Vec<u8>>)
    ensures
        r is Some <==> (s@.len() % 2 == 0 && forall|i: int|
            0 <= i < s@.len() ==> is_hex_char(#[trigger] s@[i])),
        r matches Some(b) ==> b@ == hex_decoded(s@),
{
    hex::decode(s).ok()
}

/// The first index at or after `k` where `s` holds `b`, or the length of `s`.
pub open spec fn index_from(s: Seq<u8>, b: u8, k: int) -> int
    decreases s.len() - k,
{
    if k < 0 || k >= s.len() {
        s.len() as int
    } else if s[k] == b {
        k
    } else {
        index_from(s, b, k + 1)
    }
}

/// Where `s` first holds `b`, or its length.
fn find_byte(s: &[u8], b: u8) -> (r: usize)
    ensures
        r == index_from(s@, b, 0),
        r <= s@.len(),
{
    let mut k: usize = 0;
    while k < s.len()
        invariant
            k <= s@.len(),
            index_from(s@, b, 0) == index_from(s@, b, k as int),
        decreases s@.len() - k,
    {
        if s[k] == b {
            return k;
        }
        k = k + 1;
    }
    k
}

/// The query of a URI: what follows the first `?`, up to the fragment.
pub open spec fn uri_query(link: Seq<u8>) -> Seq<u8> {
    let body = link.subrange(0, index_from(link, 35u8, 0));
    let q = index_from(body, 63u8, 0);
    if q < body.len() {
        body.subrange(q + 1, body.len() as int)
    } else {
        Seq::empty()
    }
}

/// The value of the first pair named `key`, from index `k` on.
pub open spec fn first_value(pairs: Seq<(Seq<u8>, Seq<u8>)>, key: Seq<u8>, k: int) -> Option<
    Seq<u8>,
>
    decreases pairs.len() - k,
{
    if k < 0 || k >= pairs.len() {
        None
    } else if pairs[k].0 == key {
        Some(pairs[k].1)
    } else {
        first_value(pairs, key, k + 1)
    }
}

/// The value of parameter `key` of a magnet link: the first one given.
pub open spec fn magnet_param(link: Seq<u8>, key: Seq<u8>) -> Option<Seq<u8>> {
    first_value(form_pairs_of(uri_query(link)), key, 0)
}

/// The hexadecimal part of the exact topic `xt` of a magnet link.
pub open spec fn xt_hex(link: Seq<u8>) -> Seq<u8> {
    let xt = magnet_param(link, KEY_XT@).unwrap();
    xt.subrange(XT_PREFIX@.len() as int, xt.len() as int)
}

/// A magnet URL, as its serialization, that this client accepts: scheme
/// `magnet`, an `xt` of `urn:btih:` and 40 hexadecimal digits, and, when a
/// `tr` is given, a valid tracker URL.
pub open spec fn magnet_url_ok(link: Seq<u8>) -> bool {
    &&& starts_with(link, SCHEME_MAGNET@)
    &&& magnet_param(link, KEY_XT@) matches Some(xt) && starts_with(xt, XT_PREFIX@)
    &&& xt_hex(link).len() == 40
    &&& forall|i: int| 0 <= i < xt_hex(link).len() ==> is_hex_char(#[trigger] xt_hex(link)[i])
    &&& (magnet_param(link, KEY_TR@) matches Some(tr) ==> url_parsed(tr) is Some)
}

/// The value of the first pair named `key`.
fn find_pair<'a>(pairs: &'a Vec<(Vec<u8>, Vec<u8>)>, key: &[u8]) -> (r: Option<&'a Vec<u8>>)
    ensures
        match r {
            Some(v) => first_value(pairs@.map_values(|p: (Vec<u8>, Vec<u8>)| (p.0@, p.1@)), key@, 0)
                == Some(v@),
            None => first_value(pairs@.map_values(|p: (Vec<u8>, Vec<u8>)| (p.0@, p.1@)), key@, 0)
                is None,
        },
{
    let ghost views = pairs@.map_values(|p: (Vec<u8>, Vec<u8>)| (p.0@, p.1@));
    let mut k: usize = 0;
    while k < pairs.len()
        invariant
            k <= pairs@.len(),
            views == pairs@.map_values(|p: (Vec<u8>, Vec<u8>)| (p.0@, p.1@)),
            first_value(views, key@, 0) == first_value(views, key@, k as int),
        decreases pairs@.len() - k,
    {
        if bytes_equal(pairs[k].0.as_slice(), key) {
            return Some(&pairs[k].1);
        }
        k = k + 1;
    }
    None
}

/// A parsed magnet link.
#[derive(Debug)]
pub struct Magnet {
    pub info_hash: [u8; 20],
    pub file_name: Option<Vec<u8>>,
    pub tracker_url: Option<Vec<u8>>,
}

impl Magnet {
    /// Parses a magnet link with `url::Url::parse`, then reads from its
    /// query the info-hash (`xt`), the display name (`dn`) and the tracker
    /// (`tr`).
    pub fn new(link: &[u8]) -> (r: Result<Magnet, Error>)
        ensures
            r is Ok <==> (url_parsed(link@) matches Some(u) && magnet_url_ok(u)),
            r matches Ok(m) ==> {
                let u = url_parsed(link@).unwrap();
                &&& m.info_hash@ == hex_decoded(xt_hex(u))
                &&& match m.file_name {
                    Some(n) => magnet_param(u, KEY_DN@) == Some(n@),
                    None => magnet_param(u, KEY_DN@) is None,
                }
                &&& match m.tracker_url {
                    Some(t) => magnet_param(u, KEY_TR@) matches Some(tr) && url_parsed(tr)
                        == Some(t@),
                    None => magnet_param(u, KEY_TR@) is None,
                }
            },
            r matches Err(e) ==> e == Error::ConfigInvalid,
    {
        let parsed = match parse_url(link) {
            Some(u) => u,
            None => {
                return Err(Error::ConfigInvalid);
            },
        };
        let url = parsed.as_slice();
        if !has_prefix(url, &SCHEME_MAGNET) {
            return Err(Error::ConfigInvalid);
        }
        let hash_at = find_byte(url, 35u8);
        let body = &url[0..hash_at];
        let q = find_byte(body, 63u8);
        let query: &[u8] = if q < body.len() {
            &body[q + 1..body.len()]
        } else {
            &body[0..0]
        };
        assert(query@ == uri_query(url@));
        let pairs = query_pairs(query);
        proof {
            assert(pairs@.map_values(|p: (Vec<u8>, Vec<u8>)| (p.0@, p.1@)) =~= form_pairs_of(
                uri_query(url@),
            ));
        }
        let xt = match find_pair(&pairs, &KEY_XT) {
            Some(xt) => xt,
            None => {
                return Err(Error::ConfigInvalid);
            },
        };
        if !has_prefix(xt.as_slice(), &XT_PREFIX) {
            return Err(Error::ConfigInvalid);
        }
        let hex_part = &xt.as_slice()[9..xt.len()];
        if hex_part.len() != 40 {
            return Err(Error::ConfigInvalid);
        }
        let bytes = match hex_decode(hex_part) {
            Some(b) => b,
            None => {
                return Err(Error::ConfigInvalid);
            },
        };
        let info_hash: [u8; 20] = read_array(bytes.as_slice(), 0);
        assert(bytes@.subrange(0, 20) == bytes@);
        let file_name = match find_pair(&pairs, &KEY_DN) {
            Some(n) => {
                let mut c: Vec<u8> = Vec::new();
                extend_bytes(&mut c, n.as_slice());
                Some(c)
            },
            None => None,
        };
        let tracker_url = match find_pair(&pairs, &KEY_TR) {
            Some(tr) => match parse_url(tr.as_slice()) {
                Some(u) => Some(u),
                None => {
                    return Err(Error::ConfigInvalid);
                },
            },
            None => None,
        };
        Ok(Magnet { info_hash, file_name, tracker_url })
    }
}

impl Torrent {
    /// The torrent that a magnet link and the metadata fetched for it
    /// describe. The metadata must hash to the link's info-hash, and the link
    /// must name a tracker.
    pub fn from_magnet_and_metadata(magnet: Magnet, metadata: Info) -> (r: Result<Torrent, Error>)
        ensures
            r is Ok <==> (magnet.tracker_url is Some && sha1_of(metadata.encoded@)
                == magnet.info_hash@),
            r matches Ok(t) ==> t.announce@ == magnet.tracker_url.unwrap()@ && t.info == metadata,
            r matches Err(e) ==> (e == Error::ConfigInvalid <==> magnet.tracker_url is None),
            r matches Err(e) ==> (e == Error::ConfigInvalid || e == Error::MetadataHashMismatch),
    {
        let announce = match magnet.tracker_url {
            Some(u) => u,
            None => {
                return Err(Error::ConfigInvalid);
            },
        };
        let digest = sha1_digest(metadata.encoded.as_slice());
        if !bytes_equal(&digest, &magnet.info_hash) {
            return Err(Error::MetadataHashMismatch);
        }
        Ok(Torrent { announce, info: metadata })
    }
}

} // verus!
