use bittorrent::bencode::{
    decode_bencoded_value, decode_bencoded_vec, decode_bencoded_vec_start_at, encode, BencodeError,
    Value,
};

fn bytes_of(v: &Value) -> &[u8] {
    match v {
        Value::Bytes(b) => b.as_slice(),
        _ => panic!("not a byte string"),
    }
}

fn int_of(v: &Value) -> i64 {
    match v {
        Value::Int(i) => *i,
        _ => panic!("not an integer"),
    }
}

#[test]
fn decodes_list_of_string_and_integer() {
    let input = b"l5:helloi42ee".to_vec();
    let v = decode_bencoded_vec(&input).unwrap();
    match &v {
        Value::List(items) => {
            assert_eq!(items.len(), 2);
            assert_eq!(bytes_of(&items[0]), b"hello");
            assert_eq!(int_of(&items[1]), 42);
        }
        _ => panic!("expected a list"),
    }
    assert_eq!(encode(&v), input);
}

#[test]
fn rejects_negative_zero_and_leading_zeros() {
    assert_eq!(
        decode_bencoded_vec(&b"i-0e".to_vec()).unwrap_err(),
        BencodeError::InvalidInteger
    );
    assert_eq!(
        decode_bencoded_vec(&b"i03e".to_vec()).unwrap_err(),
        BencodeError::InvalidInteger
    );
    assert_eq!(int_of(&decode_bencoded_vec(&b"i0e".to_vec()).unwrap()), 0);
}

#[test]
fn integers_at_the_edges_of_64_bits() {
    let min = decode_bencoded_vec(&b"i-9223372036854775808e".to_vec()).unwrap();
    assert_eq!(int_of(&min), i64::MIN);
    let max = decode_bencoded_vec(&b"i9223372036854775807e".to_vec()).unwrap();
    assert_eq!(int_of(&max), i64::MAX);
    assert!(decode_bencoded_vec(&b"i9223372036854775808e".to_vec()).is_err());
    assert_eq!(encode(&Value::Int(-42)), b"i-42e".to_vec());
}

#[test]
fn decodes_dictionary_with_sorted_keys() {
    let input = b"d3:cow3:moo4:spam4:eggse".to_vec();
    let v = decode_bencoded_vec(&input).unwrap();
    assert_eq!(bytes_of(v.get(b"cow").unwrap()), b"moo");
    assert_eq!(bytes_of(v.get(b"spam").unwrap()), b"eggs");
    assert!(v.get(b"absent").is_none());
    assert_eq!(encode(&v), input);
}

#[test]
fn rejects_unsorted_or_duplicate_keys() {
    assert_eq!(
        decode_bencoded_vec(&b"d4:spam4:eggs3:cow3:mooe".to_vec()).unwrap_err(),
        BencodeError::UnsortedKeys
    );
    assert_eq!(
        decode_bencoded_vec(&b"d3:cow1:a3:cow1:be".to_vec()).unwrap_err(),
        BencodeError::UnsortedKeys
    );
}

#[test]
fn rejects_non_string_key() {
    assert_eq!(
        decode_bencoded_vec(&b"di1e3:mooe".to_vec()).unwrap_err(),
        BencodeError::NonStringKey
    );
}

#[test]
fn rejects_bad_string_lengths() {
    assert_eq!(
        decode_bencoded_vec(&b"10:short".to_vec()).unwrap_err(),
        BencodeError::UnexpectedEnd
    );
    assert_eq!(
        decode_bencoded_vec(&b"05:hello".to_vec()).unwrap_err(),
        BencodeError::InvalidLength
    );
}

#[test]
fn rejects_unknown_prefix_missing_end_and_trailing_bytes() {
    assert_eq!(
        decode_bencoded_vec(&b"x".to_vec()).unwrap_err(),
        BencodeError::InvalidPrefix
    );
    assert_eq!(
        decode_bencoded_vec(&b"i42".to_vec()).unwrap_err(),
        BencodeError::UnexpectedEnd
    );
    assert_eq!(
        decode_bencoded_vec(&b"l5:hello".to_vec()).unwrap_err(),
        BencodeError::UnexpectedEnd
    );
    assert_eq!(
        decode_bencoded_vec(&b"i1ei2e".to_vec()).unwrap_err(),
        BencodeError::TrailingData
    );
    assert_eq!(
        decode_bencoded_vec(&Vec::new()).unwrap_err(),
        BencodeError::UnexpectedEnd
    );
}

#[test]
fn decodes_from_an_offset() {
    let input = b"xx4:spami7e".to_vec();
    let (v, next) = decode_bencoded_vec_start_at(&input, 2).unwrap();
    assert_eq!(bytes_of(&v), b"spam");
    assert_eq!(next, 8);
    let (w, end) = decode_bencoded_vec_start_at(&input, next).unwrap();
    assert_eq!(int_of(&w), 7);
    assert_eq!(end, input.len());
    assert_eq!(
        decode_bencoded_vec_start_at(&input, input.len()).unwrap_err(),
        BencodeError::UnexpectedEnd
    );
    assert_eq!(
        decode_bencoded_vec_start_at(&input, 50).unwrap_err(),
        BencodeError::UnexpectedEnd
    );
}

#[test]
fn decodes_text_input() {
    let v = decode_bencoded_value("d1:ai1e1:bl0:ee").unwrap();
    assert_eq!(int_of(v.get(b"a").unwrap()), 1);
    assert_eq!(encode(&v), b"d1:ai1e1:bl0:ee".to_vec());
}

#[test]
fn empty_containers_round_trip() {
    for input in [&b"le"[..], &b"de"[..], &b"0:"[..], &b"lledee"[..]] {
        let v = decode_bencoded_vec(&input.to_vec()).unwrap();
        assert_eq!(encode(&v), input.to_vec());
    }
}
