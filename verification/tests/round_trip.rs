//! Round trips through the codec on concrete values: decode after encode
//! returns the value, encode after decode returns canonical input bytes,
//! and dictionary keys come out ascending whatever the insertion order.

use bencode::decode_bencode;
use bencode::dict_insert;
use bencode::encode_bencode;
use bencode::encode_dict;
use bencode::BencodeValue;
use bencode::DictEntry;

#[test]
fn nested_dict_of_list_round_trips() {
    let input = b"d3:fooli1ei2eee";
    let (val, rest) = decode_bencode(input).unwrap();
    assert_eq!(rest, b"");
    match &val {
        BencodeValue::Dict(entries) => {
            assert_eq!(entries.len(), 1);
            assert_eq!(entries[0].key, b"foo".to_vec());
            assert_eq!(
                entries[0].value,
                BencodeValue::List(vec![BencodeValue::Int(1), BencodeValue::Int(2)])
            );
        },
        other => panic!("expected a dictionary, got {:?}", other),
    }
    let reencoded = encode_bencode(val).unwrap();
    assert_eq!(reencoded, input.to_vec());
}

#[test]
fn decode_after_encode_returns_the_value() {
    let mut dict: Vec<DictEntry> = Vec::new();
    dict_insert(&mut dict, b"k".to_vec(), BencodeValue::Int(-7));
    let value = BencodeValue::List(vec![
        BencodeValue::Int(0),
        BencodeValue::Str(vec![0xff, 0x00]),
        BencodeValue::Dict(dict),
        BencodeValue::List(vec![]),
    ]);
    let expected = BencodeValue::List(vec![
        BencodeValue::Int(0),
        BencodeValue::Str(vec![0xff, 0x00]),
        BencodeValue::Dict(vec![DictEntry {
            key: b"k".to_vec(),
            value: BencodeValue::Int(-7),
        }]),
        BencodeValue::List(vec![]),
    ]);
    let encoded = encode_bencode(value).unwrap();
    let (decoded, rest) = decode_bencode(&encoded).unwrap();
    assert_eq!(rest, b"");
    assert_eq!(decoded, expected);
}

#[test]
fn encode_after_decode_reproduces_canonical_bytes() {
    let canonical: &[&[u8]] = &[
        b"i-42e",
        b"0:",
        b"4:\xff\x00\xaa\xbb",
        b"le",
        b"de",
        b"d1:ai1e1:blee",
        b"li1eli2e6:nestede3:ende",
    ];
    for input in canonical {
        let (val, rest) = decode_bencode(input).unwrap();
        let mut reencoded = encode_bencode(val).unwrap();
        reencoded.extend_from_slice(rest);
        assert_eq!(&reencoded, input);
    }
}

#[test]
fn keys_inserted_in_any_order_encode_ascending() {
    let keys: &[&[u8]] = &[b"pear", b"apple", b"zebra", b"app", b"banana"];
    let mut dict: Vec<DictEntry> = Vec::new();
    for (n, key) in keys.iter().enumerate() {
        dict_insert(&mut dict, key.to_vec(), BencodeValue::Int(n as i64));
    }
    let encoded = encode_dict(dict).unwrap();
    assert_eq!(
        encoded,
        b"d3:appi3e5:applei1e6:bananai4e4:peari0e5:zebrai2ee".to_vec()
    );

    // The same entries inserted in reverse order give identical bytes.
    let mut reversed: Vec<DictEntry> = Vec::new();
    for (n, key) in keys.iter().enumerate().rev() {
        dict_insert(&mut reversed, key.to_vec(), BencodeValue::Int(n as i64));
    }
    assert_eq!(encode_dict(reversed).unwrap(), encoded);
}

#[test]
fn concatenated_stream_decodes_value_by_value() {
    let stream = b"i1e2:okle";
    let (first, rest) = decode_bencode(stream).unwrap();
    assert_eq!(first, BencodeValue::Int(1));
    let (second, rest) = decode_bencode(rest).unwrap();
    assert_eq!(second, BencodeValue::Str(b"ok".to_vec()));
    let (third, rest) = decode_bencode(rest).unwrap();
    assert_eq!(third, BencodeValue::List(vec![]));
    assert_eq!(rest, b"");
}
