use bittorrent::hashes::Hashes;

#[test]
fn test_hashes_deserialize() {
    let hashes = Hashes(vec![[0u8; 20]; 3]);
    println!("{:?}", hashes);
}

#[test]
fn hashes_split_and_join() {
    let mut bytes = vec![0u8; 40];
    bytes[20] = 7;
    let hashes = Hashes::from_bytes(&bytes).unwrap();
    assert_eq!(hashes.0.len(), 2);
    assert_eq!(hashes.0[1][0], 7);
    assert_eq!(hashes.to_bytes(), bytes);
    assert!(Hashes::from_bytes(&bytes[..39]).is_err());
}
