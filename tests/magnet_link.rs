use bittorrent::error::Error;
use bittorrent::magnet::Magnet;
use bittorrent::torrent::Info;
use bittorrent::bencode::decode_bencoded_vec;

#[test]
fn parses_magnet_link() {
    let link = b"magnet:?xt=urn:btih:d69f91e6b2ae4c542468d1073a71d4ea13879a7f&dn=sample&tr=http%3A%2F%2Ftracker.example%2Fannounce";
    let m = Magnet::new(link).unwrap();
    assert_eq!(hex::encode(m.info_hash), "d69f91e6b2ae4c542468d1073a71d4ea13879a7f");
    assert_eq!(m.file_name, Some(b"sample".to_vec()));
    assert_eq!(m.tracker_url, Some(b"http://tracker.example/announce".to_vec()));
}

#[test]
fn magnet_without_tracker_or_name() {
    let m = Magnet::new(b"magnet:?xt=urn:btih:D69F91E6B2AE4C542468D1073A71D4EA13879A7F").unwrap();
    assert_eq!(hex::encode(m.info_hash), "d69f91e6b2ae4c542468d1073a71d4ea13879a7f");
    assert_eq!(m.file_name, None);
    assert_eq!(m.tracker_url, None);
}

#[test]
fn rejects_bad_magnet_links() {
    let cases: [&[u8]; 5] = [
        b"http://example/?xt=urn:btih:d69f91e6b2ae4c542468d1073a71d4ea13879a7f",
        b"magnet:?dn=sample",
        b"magnet:?xt=urn:sha1:d69f91e6b2ae4c542468d1073a71d4ea13879a7f",
        b"magnet:?xt=urn:btih:d69f91e6b2ae4c542468d1073a71d4ea13879a7",
        b"magnet:?xt=urn:btih:z69f91e6b2ae4c542468d1073a71d4ea13879a7f",
    ];
    for link in cases {
        assert_eq!(Magnet::new(link).err(), Some(Error::ConfigInvalid));
    }
}

#[test]
fn metadata_must_hash_to_the_magnet_hash() {
    let info_bytes = b"d6:lengthi3e4:name1:x12:piece lengthi4e6:pieces20:aaaaaaaaaaaaaaaaaaaae".to_vec();
    let v = decode_bencoded_vec(&info_bytes).unwrap();
    let info = Info::from_value(&v, info_bytes.clone()).unwrap();
    let link = b"magnet:?xt=urn:btih:d69f91e6b2ae4c542468d1073a71d4ea13879a7f&tr=http%3A%2F%2Ft%2Fa";
    let m = Magnet::new(link).unwrap();
    assert_eq!(
        bittorrent::torrent::Torrent::from_magnet_and_metadata(m, info).err(),
        Some(Error::MetadataHashMismatch)
    );
}

#[test]
fn torrent_from_magnet_and_matching_metadata() {
    let info_bytes = b"d6:lengthi3e4:name1:x12:piece lengthi4e6:pieces20:aaaaaaaaaaaaaaaaaaaae".to_vec();
    let v = decode_bencoded_vec(&info_bytes).unwrap();
    let info = Info::from_value(&v, info_bytes.clone()).unwrap();
    let link = b"magnet:?xt=urn:btih:1cefb6c3834649282bef94e671e2479a9640da60&tr=http%3A%2F%2Ft%2Fa";
    let m = Magnet::new(link).unwrap();
    let t = bittorrent::torrent::Torrent::from_magnet_and_metadata(m, info).unwrap();
    assert_eq!(t.announce, b"http://t/a".to_vec());
    assert_eq!(hex::encode(t.info_hash()), "1cefb6c3834649282bef94e671e2479a9640da60");
    let no_tracker = Magnet::new(b"magnet:?xt=urn:btih:1cefb6c3834649282bef94e671e2479a9640da60").unwrap();
    let info2 = Info::from_value(&v, info_bytes).unwrap();
    assert_eq!(
        bittorrent::torrent::Torrent::from_magnet_and_metadata(no_tracker, info2).err(),
        Some(Error::ConfigInvalid)
    );
}

#[test]
fn tracker_url_is_normalised() {
    let link = b"magnet:?xt=urn:btih:d69f91e6b2ae4c542468d1073a71d4ea13879a7f&tr=HTTP%3A%2F%2FTracker.Example";
    let m = Magnet::new(link).unwrap();
    assert_eq!(m.tracker_url, Some(b"http://tracker.example/".to_vec()));
    let bad = b"magnet:?xt=urn:btih:d69f91e6b2ae4c542468d1073a71d4ea13879a7f&tr=not%20a%20url";
    assert_eq!(Magnet::new(bad).err(), Some(Error::ConfigInvalid));
}

#[test]
fn first_parameter_wins_and_plus_is_space() {
    let link = b"magnet:?dn=first+name&xt=urn:btih:d69f91e6b2ae4c542468d1073a71d4ea13879a7f&dn=second#frag";
    let m = Magnet::new(link).unwrap();
    assert_eq!(m.file_name, Some(b"first name".to_vec()));
}

#[test]
fn scheme_is_case_insensitive() {
    let m = Magnet::new(b"MAGNET:?xt=urn:btih:d69f91e6b2ae4c542468d1073a71d4ea13879a7f").unwrap();
    assert_eq!(hex::encode(m.info_hash), "d69f91e6b2ae4c542468d1073a71d4ea13879a7f");
}
