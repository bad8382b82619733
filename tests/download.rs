use bittorrent::bencode::decode_bencoded_vec;
use bittorrent::scheduler::{block_plan, BlockOutcome, PieceAssembly, PieceOutcome, Scheduler};
use bittorrent::torrent::Info;

/// A seven-byte file "abcdefg" in pieces of four bytes.
fn small_info() -> Info {
    let mut bytes = b"d6:lengthi7e4:name1:f12:piece lengthi4e6:pieces40:".to_vec();
    bytes.extend(hex::decode("81fe8bfe87576c3ecb22426f8e57847382917acf").unwrap());
    bytes.extend(hex::decode("cbf019b764b9477080c5a9a748a2911a5fa6d614").unwrap());
    bytes.push(b'e');
    let v = decode_bencoded_vec(&bytes).unwrap();
    Info::from_value(&v, bytes).unwrap()
}

#[test]
fn corrupt_piece_is_retried_then_accepted() {
    let info = small_info();
    let mut s = Scheduler::new(&info);
    assert_eq!(s.pending(), vec![0, 1]);
    assert_eq!(s.on_piece(0, b"abcX"), PieceOutcome::Retry);
    assert_eq!(s.pending(), vec![0, 1]);
    assert_eq!(s.on_piece(0, b"abcd"), PieceOutcome::Accepted);
    assert_eq!(s.pending(), vec![1]);
    assert!(!s.is_complete());
    assert_eq!(s.piece_output(1), None);
    assert_eq!(s.piece_output(0), Some(b"abcd".to_vec()));
    assert_eq!(s.on_piece(1, b""), PieceOutcome::Retry);
    assert_eq!(s.on_piece(1, b"efgh"), PieceOutcome::Retry);
    assert_eq!(s.on_piece(1, b"efg"), PieceOutcome::Accepted);
    assert!(s.is_complete());
    assert_eq!(s.piece_output(1), Some(b"efg".to_vec()));
    assert_eq!(s.finish(), Some(b"abcdefg".to_vec()));
}

#[test]
fn peers_are_chosen_among_holders() {
    let info = small_info();
    let mut s = Scheduler::new(&info);
    assert!(!s.has_peers());
    assert_eq!(s.choose_peer(0), None);
    s.add_peer(3, &vec![1, 5]);
    s.add_peer(4, &vec![1]);
    assert!(s.has_peers());
    assert_eq!(s.choose_peer(0), None);
    for _ in 0..20 {
        let p = s.choose_peer(1).unwrap();
        assert!(p == 3 || p == 4);
    }
    assert_eq!(s.piece_size(0), 4);
    assert_eq!(s.piece_size(1), 3);
}

#[test]
fn blocks_of_a_piece() {
    assert_eq!(block_plan(40000), vec![(0, 16384), (16384, 16384), (32768, 7232)]);
    assert_eq!(block_plan(16384), vec![(0, 16384)]);
    assert_eq!(block_plan(0), Vec::<(u32, u32)>::new());
}

#[test]
fn piece_assembled_from_blocks_by_offset() {
    let mut a = PieceAssembly::new(2, 16384 + 3);
    assert!(!a.is_complete());
    assert_eq!(a.on_block(16384, &[1, 2, 3]), BlockOutcome::Stored);
    assert_eq!(a.on_block(0, &[]), BlockOutcome::Retry);
    assert_eq!(a.on_block(5, &[1]), BlockOutcome::Retry);
    assert_eq!(a.on_block(0, &vec![7u8; 16384]), BlockOutcome::Stored);
    assert!(a.is_complete());
    let bytes = a.finish().unwrap();
    assert_eq!(bytes.len(), 16387);
    assert_eq!(&bytes[16384..], &[1, 2, 3]);
    assert_eq!(bytes[0], 7);
}

#[test]
fn unfinished_download_gives_no_output() {
    let s = Scheduler::new(&small_info());
    assert_eq!(s.finish(), None);
    let a = PieceAssembly::new(0, 5);
    assert_eq!(a.finish(), None);
}

#[test]
fn bitfield_peers_only_for_marked_pieces() {
    let mut s = Scheduler::new(&small_info());
    s.add_peer_bitfield(7, &[0b0100_0000, 0xff]);
    assert_eq!(s.choose_peer(0), None);
    assert_eq!(s.choose_peer(1), Some(7));
}
