use bittorrent::bencode::{decode, encode, BencodeError, BencodeValue};

#[test]
fn decodes_byte_string() {
    let (v, n) = decode(b"5:hello rest").unwrap();
    assert_eq!(v, BencodeValue::Bytes(b"hello".to_vec()));
    assert_eq!(n, 7);
}

#[test]
fn decodes_integers() {
    assert_eq!(decode(b"i52e").unwrap(), (BencodeValue::Int(52), 4));
    assert_eq!(decode(b"i-42e").unwrap(), (BencodeValue::Int(-42), 5));
    assert_eq!(decode(b"i0e").unwrap(), (BencodeValue::Int(0), 3));
    assert_eq!(
        decode(b"i-9223372036854775808e").unwrap(),
        (BencodeValue::Int(i64::MIN), 22)
    );
}

#[test]
fn decodes_list_and_dict() {
    let (v, n) = decode(b"l5:helloi52ee").unwrap();
    assert_eq!(n, 13);
    assert_eq!(
        v,
        BencodeValue::List(vec![
            BencodeValue::Bytes(b"hello".to_vec()),
            BencodeValue::Int(52)
        ])
    );
    let (d, m) = decode(b"d3:foo3:bar5:helloi52ee").unwrap();
    assert_eq!(m, 23);
    assert_eq!(
        d,
        BencodeValue::Dict(vec![
            (b"foo".to_vec(), BencodeValue::Bytes(b"bar".to_vec())),
            (b"hello".to_vec(), BencodeValue::Int(52)),
        ])
    );
}

#[test]
fn rejects_empty_input() {
    assert_eq!(decode(b""), Err(BencodeError::UnexpectedEof));
}

#[test]
fn rejects_unknown_leading_byte() {
    assert_eq!(decode(b"x5e"), Err(BencodeError::MalformedBencode));
}

#[test]
fn rejects_unterminated_list() {
    assert_eq!(decode(b"li1ei2e"), Err(BencodeError::UnexpectedEof));
}

#[test]
fn rejects_short_byte_string() {
    assert_eq!(decode(b"5:abc"), Err(BencodeError::UnexpectedEof));
}

#[test]
fn rejects_non_canonical_integers() {
    assert_eq!(decode(b"i03e"), Err(BencodeError::MalformedBencode));
    assert_eq!(decode(b"i-0e"), Err(BencodeError::MalformedBencode));
    assert_eq!(decode(b"i9223372036854775808e"), Err(BencodeError::MalformedBencode));
}

#[test]
fn rejects_non_string_dict_key() {
    assert_eq!(decode(b"di1ei2ee"), Err(BencodeError::MalformedBencode));
}

#[test]
fn encodes_values() {
    assert_eq!(encode(&BencodeValue::Int(-7)), b"i-7e".to_vec());
    assert_eq!(encode(&BencodeValue::Bytes(b"spam".to_vec())), b"4:spam".to_vec());
    assert_eq!(encode(&BencodeValue::List(vec![])), b"le".to_vec());
    let v = BencodeValue::Dict(vec![
        (b"cow".to_vec(), BencodeValue::Bytes(b"moo".to_vec())),
        (b"spam".to_vec(), BencodeValue::List(vec![BencodeValue::Int(1)])),
    ]);
    assert_eq!(encode(&v), b"d3:cow3:moo4:spamli1eee".to_vec());
}

#[test]
fn round_trip_of_sorted_dictionary() {
    let bytes = b"d8:announce9:localhost4:infod6:lengthi5e4:name1:xee trailing";
    let (v, n) = decode(bytes).unwrap();
    assert_eq!(encode(&v), bytes[..n].to_vec());
}

#[test]
fn encode_sorts_dictionary_keys() {
    let bytes = b"d1:bi1e1:ai2e2:aad1:zle1:yleee";
    let (v, n) = decode(bytes).unwrap();
    assert_eq!(n, bytes.len());
    assert_eq!(encode(&v), b"d1:ai2e2:aad1:yle1:zlee1:bi1ee".to_vec());
    let unsorted = BencodeValue::Dict(vec![
        (b"b".to_vec(), BencodeValue::Int(1)),
        (b"a".to_vec(), BencodeValue::Int(2)),
    ]);
    assert_eq!(encode(&unsorted), b"d1:ai2e1:bi1ee".to_vec());
}

#[test]
fn decodes_nested_values() {
    let bytes = b"d4:listl1:ali-1eee3:numi0ee";
    let (v, n) = decode(bytes).unwrap();
    assert_eq!(n, bytes.len());
    assert_eq!(
        v,
        BencodeValue::Dict(vec![
            (
                b"list".to_vec(),
                BencodeValue::List(vec![
                    BencodeValue::Bytes(b"a".to_vec()),
                    BencodeValue::List(vec![BencodeValue::Int(-1)]),
                ])
            ),
            (b"num".to_vec(), BencodeValue::Int(0)),
        ])
    );
    assert_eq!(encode(&v), bytes.to_vec());
}

#[test]
fn rejects_leading_zero_length() {
    assert_eq!(decode(b"01:a"), Err(BencodeError::MalformedBencode));
    assert_eq!(decode(b"0:").unwrap(), (BencodeValue::Bytes(vec![]), 2));
}
