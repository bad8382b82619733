use bittorrent::error::Error;
use bittorrent::extension::{
    extension_handshake_payload, header_from_payload, metadata_from_payload,
    metadata_request_payload, ExtensionHeader, ExtensionMessage, ExtensionMessageType,
};
use bittorrent::peer::{
    gen_peer_id, message_length, pieces_from_bitfield, request_payload, Handshake, Message,
    MessageId,
};
use bittorrent::tracker::{PeerAddr, Peers, TrackerRequest, TrackerResponse};

#[test]
fn handshake_bytes() {
    let h = [0xaau8; 20];
    let p = [0x55u8; 20];
    let bytes = Handshake::with_peer_id(h, p).as_bytes();
    let mut expected = vec![19u8];
    expected.extend(b"BitTorrent protocol");
    expected.extend([0, 0, 0, 0, 0, 0x10, 0, 0]);
    expected.extend(h);
    expected.extend(p);
    assert_eq!(bytes.len(), 68);
    assert_eq!(bytes, expected);
}

#[test]
fn handshake_reply_must_match() {
    let ours = Handshake::new([1u8; 20]);
    assert!(ours.peer_id.iter().all(|b| b.is_ascii_digit()));
    assert!(ours.supports_extension());
    let reply = Handshake::from_bytes(&Handshake::with_peer_id([1u8; 20], [9u8; 20]).as_bytes()).unwrap();
    assert_eq!(reply.peer_id, [9u8; 20]);
    assert_eq!(ours.check_reply(&reply), Ok(()));
    let other = Handshake::with_peer_id([2u8; 20], [9u8; 20]);
    assert_eq!(ours.check_reply(&other), Err(Error::HandshakeMismatch));
    let mut bad = Handshake::with_peer_id([1u8; 20], [9u8; 20]);
    bad.protocol[0] = b'b';
    assert_eq!(ours.check_reply(&bad), Err(Error::HandshakeMismatch));
    assert!(Handshake::from_bytes(&[0u8; 67]).is_none());
    let mut plain = reply;
    plain.reserved = [0u8; 8];
    assert!(!plain.supports_extension());
}

#[test]
fn peer_ids_are_decimal_digits() {
    let id = gen_peer_id();
    assert!(id.iter().all(|b| b.is_ascii_digit()));
}

#[test]
fn message_framing() {
    let m = Message::new(MessageId::Interested, vec![]);
    assert_eq!(m.as_bytes(), vec![0, 0, 0, 1, 2]);
    let r = Message::new(MessageId::Request, request_payload(1, 16384, 16384));
    assert_eq!(
        r.as_bytes(),
        vec![0, 0, 0, 13, 6, 0, 0, 0, 1, 0, 0, 0x40, 0, 0, 0, 0x40, 0]
    );
    assert_eq!(message_length([0, 0, 1, 2]), 258);
    assert!(Message::from_parts(99, vec![]).is_err());
    let piece = Message::from_parts(7, vec![0, 0, 0, 2, 0, 0, 0, 4, 9, 8]).unwrap();
    assert_eq!(piece.piece_block(), Ok((2, 4, vec![9, 8])));
    assert_eq!(piece.expect(MessageId::Unchoke), Err(Error::ProtocolViolation));
    assert_eq!(
        Message::from_parts(1, vec![]).unwrap().expect(MessageId::Unchoke),
        Ok(())
    );
}

#[test]
fn bitfield_maps_msb_first_and_ignores_extra_bits() {
    assert_eq!(pieces_from_bitfield(&[0b1010_0000, 0b0000_0001], 16), vec![0, 2, 15]);
    assert_eq!(pieces_from_bitfield(&[0xff], 3), vec![0, 1, 2]);
    assert_eq!(pieces_from_bitfield(&[], 3), Vec::<usize>::new());
}

#[test]
fn compact_peers_decode() {
    let bytes = [0xC0u8, 0xA8, 0x00, 0x01, 0x1A, 0xE1, 0xC0, 0xA8, 0x00, 0x02, 0x1A, 0xE1];
    let peers = Peers::from_compact(&bytes).unwrap();
    assert_eq!(
        peers.0,
        vec![
            PeerAddr { ip: [192, 168, 0, 1], port: 6881 },
            PeerAddr { ip: [192, 168, 0, 2], port: 6881 }
        ]
    );
    assert_eq!(peers.to_compact(), bytes.to_vec());
    assert_eq!(Peers::from_compact(&bytes[..11]).err(), Some(Error::TrackerDecode));
}

#[test]
fn tracker_response_parses() {
    let mut body = b"d8:intervali60e5:peers12:".to_vec();
    body.extend([192, 168, 0, 1, 0x1A, 0xE1, 10, 0, 0, 7, 0, 80]);
    body.push(b'e');
    let r = TrackerResponse::from_bytes(&body).unwrap();
    assert_eq!(r.interval, Some(60));
    let peers = r.peers();
    assert_eq!(peers.len(), 2);
    assert_eq!(peers[1], PeerAddr { ip: [10, 0, 0, 7], port: 80 });
    let mut odd = b"d8:interval3:abc5:peers6:".to_vec();
    odd.extend([1, 2, 3, 4, 0, 80]);
    odd.push(b'e');
    let r = TrackerResponse::from_bytes(&odd).unwrap();
    assert_eq!(r.interval, None);
    assert_eq!(r.peers().len(), 1);
    let bad = b"d5:peers5:abcdee".to_vec();
    assert_eq!(TrackerResponse::from_bytes(&bad).err(), Some(Error::TrackerDecode));
}

#[test]
fn tracker_url_encodes_every_byte() {
    let mut req = TrackerRequest::new(92063);
    req.peer_id = *b"00112233445566778899";
    let hash: [u8; 20] = hex::decode("d69f91e6b2ae4c542468d1073a71d4ea13879a7f")
        .unwrap()
        .try_into()
        .unwrap();
    let url = req.url(b"http://tracker.example/announce", &hash).unwrap();
    let expected = "http://tracker.example/announce?peer_id=%30%30%31%31%32%32%33%33%34%34%35%35%36%36%37%37%38%38%39%39&port=6881&uploaded=0&downloaded=0&left=92063&compact=1&info_hash=%d6%9f%91%e6%b2%ae%4c%54%24%68%d1%07%3a%71%d4%ea%13%87%9a%7f";
    assert_eq!(String::from_utf8(url).unwrap(), expected);
    assert_eq!(
        req.url(b"udp://tracker.example:80", &hash).err(),
        Some(Error::TrackerTransport)
    );
}

#[test]
fn extension_handshake_bytes() {
    let payload = extension_handshake_payload(&ExtensionHeader::new());
    let mut expected = vec![0u8];
    expected.extend(b"d1:md11:ut_metadatai1e6:ut_pexi2ee1:pi6881ee");
    assert_eq!(payload, expected);
    let reply = b"\x00d1:md11:ut_metadatai16eee".to_vec();
    let header = header_from_payload(&reply).unwrap();
    assert_eq!(header.m.ut_metadata, 16);
    assert_eq!(header.m.ut_pex, None);
    let no_metadata = b"\x00d1:md6:ut_pexi2eee".to_vec();
    assert_eq!(header_from_payload(&no_metadata).err(), Some(Error::ExtensionUnsupported));
    assert!(matches!(header_from_payload(b"\x00d1:m").err(), Some(Error::BencodeParse(_))));
}

#[test]
fn metadata_request_and_reply() {
    let mut expected = vec![16u8];
    expected.extend(b"d8:msg_typei0e5:piecei0ee");
    assert_eq!(metadata_request_payload(16), expected);
    let msg = ExtensionMessage::request(0);
    assert_eq!(msg.msg_type, ExtensionMessageType::Request);
    let info = b"d6:lengthi3e4:name1:x12:piece lengthi4e6:pieces20:aaaaaaaaaaaaaaaaaaaae".to_vec();
    let mut reply = vec![1u8];
    reply.extend(format!("d8:msg_typei1e5:piecei0e10:total_sizei{}ee", info.len()).as_bytes());
    reply.extend(&info);
    let parsed = metadata_from_payload(&reply).unwrap();
    assert_eq!(parsed.encoded, info);
    assert_eq!(parsed.file_len(), 3);
    let mut no_size = vec![1u8];
    no_size.extend(b"d8:msg_typei1e5:piecei0ee");
    no_size.extend(&info);
    assert_eq!(metadata_from_payload(&no_size).err(), Some(Error::ProtocolViolation));
    let mut too_big = vec![1u8];
    too_big.extend(b"d8:msg_typei1e5:piecei0e10:total_sizei9999ee");
    too_big.extend(&info);
    assert_eq!(metadata_from_payload(&too_big).err(), Some(Error::ProtocolViolation));
    let mut reject = vec![1u8];
    reject.extend(b"d8:msg_typei2e5:piecei0ee");
    assert_eq!(metadata_from_payload(&reject).err(), Some(Error::ExtensionUnsupported));
}
