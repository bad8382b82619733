use bittorrent::bencode::encode;
use bittorrent::error::Error;
use bittorrent::torrent::{Additional, Torrent};

const PIECES_HEX: &str = "e876f67a2a8886e8f36b136726c30fa29703022d6e2275e604a0766656736e81ff10b55204ad8d35f00d937a0213df1982bc8d097227ad9e909acc17";

fn sample_info() -> Vec<u8> {
    let mut info = b"d6:lengthi92063e4:name10:sample.txt12:piece lengthi32768e6:pieces60:".to_vec();
    info.extend(hex::decode(PIECES_HEX).unwrap());
    info.push(b'e');
    info
}

fn sample_torrent() -> Vec<u8> {
    let mut t = b"d8:announce55:http://bittorrent-test-tracker.codecrafters.io/announce4:info".to_vec();
    t.extend(sample_info());
    t.push(b'e');
    t
}

#[test]
fn info_hash_of_sample_torrent() {
    let torrent = Torrent::new(&sample_torrent()).unwrap();
    assert_eq!(
        hex::encode(torrent.info_hash()),
        "d69f91e6b2ae4c542468d1073a71d4ea13879a7f"
    );
    assert_eq!(
        torrent.announce,
        b"http://bittorrent-test-tracker.codecrafters.io/announce".to_vec()
    );
    assert_eq!(torrent.info.encoded, sample_info());
}

#[test]
fn length_pieces_and_piece_sizes() {
    let torrent = Torrent::new(&sample_torrent()).unwrap();
    assert_eq!(torrent.len(), 92063);
    assert_eq!(torrent.info.piece_length, 32768);
    let pieces = torrent.pieces();
    assert_eq!(pieces.len(), 3);
    assert_eq!(hex::encode(&pieces[0]), "e876f67a2a8886e8f36b136726c30fa29703022d");
    assert_eq!(hex::encode(&pieces[2]), "f00d937a0213df1982bc8d097227ad9e909acc17");
    assert_eq!(torrent.info.piece_size(0), 32768);
    assert_eq!(torrent.info.piece_size(1), 32768);
    assert_eq!(torrent.info.piece_size(2), 92063 - 2 * 32768);
    let total: u64 = (0..3).map(|i| torrent.info.piece_size(i) as u64).sum();
    assert_eq!(total, torrent.len());
    assert_eq!(torrent.info.pieces().len(), 3);
    assert_eq!(torrent.info.file_len(), 92063);
}

#[test]
fn info_hash_is_over_the_input_bytes() {
    let torrent = Torrent::new(&sample_torrent()).unwrap();
    let reencoded = {
        let v = bittorrent::bencode::decode_bencoded_vec(&sample_info()).unwrap();
        encode(&v)
    };
    assert_eq!(reencoded, sample_info());
    assert_eq!(torrent.info.encoded, reencoded);
}

#[test]
fn multi_file_torrent_sums_lengths() {
    let mut t = b"d8:announce14:http://t/annnn4:infod5:filesld6:lengthi3e4:pathl1:aeed6:lengthi4e4:pathl1:b1:ceee4:name3:dir12:piece lengthi4e6:pieces40:".to_vec();
    t.extend(vec![1u8; 40]);
    t.extend(b"ee");
    let torrent = Torrent::new(&t).unwrap();
    assert_eq!(torrent.len(), 7);
    match &torrent.info.additional {
        Additional::MultiFile { files } => {
            assert_eq!(files.len(), 2);
            assert_eq!(files[0].length, 3);
            assert_eq!(files[1].path, vec![b"b".to_vec(), b"c".to_vec()]);
        }
        _ => panic!("expected several files"),
    }
    assert_eq!(torrent.info.piece_size(1), 3);
}

#[test]
fn rejects_piece_count_mismatch_and_missing_fields() {
    let mut t = b"d8:announce1:a4:infod6:lengthi92063e4:name1:x12:piece lengthi32768e6:pieces40:".to_vec();
    t.extend(vec![0u8; 40]);
    t.extend(b"ee");
    assert_eq!(Torrent::new(&t).err(), Some(Error::UnsupportedTorrent));
    let no_name = b"d8:announce1:a4:infod6:lengthi1e12:piece lengthi1e6:pieces0:ee".to_vec();
    assert_eq!(Torrent::new(&no_name).err(), Some(Error::UnsupportedTorrent));
    assert!(matches!(
        Torrent::new(&b"d8:announce".to_vec()).err(),
        Some(Error::BencodeParse(_))
    ));
}
