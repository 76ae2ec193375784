use bencode::dict_insert;
use bencode::encode_dict;
use bencode::encode_integer;
use bencode::encode_list;
use bencode::encode_string;
use bencode::BencodeValue;
use bencode::DictEntry;

#[test]
fn test_encode_integer() {
    // Test a normal integer
    assert_eq!(encode_integer(42).unwrap(), b"i42e".to_vec());

    // Test zero
    assert_eq!(encode_integer(0).unwrap(), b"i0e".to_vec());

    // Test a large number
    assert_eq!(encode_integer(123456789).unwrap(), b"i123456789e".to_vec());

    // Test Negative Number
    assert_eq!(encode_integer(-42).unwrap(), b"i-42e".to_vec());
}

#[test]
fn test_encode_string() {
    // ASCII string
    assert_eq!(
        encode_string(b"bencode".to_vec()).unwrap(),
        b"7:bencode".to_vec()
    );

    // Empty string
    assert_eq!(encode_string(b"".to_vec()).unwrap(), b"0:".to_vec());

    // Unicode string (valid UTF-8)
    let unicode_str = "আসসালামু আলাইকুম";
    let expected = format!("{}:{}", unicode_str.len(), unicode_str).into_bytes();
    assert_eq!(
        encode_string(unicode_str.as_bytes().to_vec()).unwrap(),
        expected
    );

    // Non-UTF-8 bytes
    let input = vec![0xFF, 0xFE, 0xFD];
    let mut expected = b"3:".to_vec();
    expected.extend_from_slice(&input);
    assert_eq!(encode_string(input).unwrap(), expected);
}

#[test]
fn test_encode_simple_list() {
    let list = vec![
        BencodeValue::Int(42),
        BencodeValue::Str("hello".as_bytes().to_vec()),
    ];

    let encoded = encode_list(list).unwrap();
    assert_eq!(encoded, b"li42e5:helloe".to_vec());
}

#[test]
fn test_encode_nested_list() {
    let nested_list = vec![
        BencodeValue::Int(1),
        BencodeValue::List(vec![
            BencodeValue::Int(2),
            BencodeValue::Str("nested".as_bytes().to_vec()),
        ]),
        BencodeValue::Str("end".as_bytes().to_vec()),
    ];

    let encoded = encode_list(nested_list).unwrap();
    assert_eq!(encoded, b"li1eli2e6:nestede3:ende".to_vec());
}

#[test]
fn test_empty_list() {
    let empty: Vec<BencodeValue> = vec![];
    let encoded = encode_list(empty).unwrap();
    assert_eq!(encoded, b"le".to_vec());
}

#[test]
fn test_list_with_mixed_types() {
    let list = vec![
        BencodeValue::Str("bencode".as_bytes().to_vec()),
        BencodeValue::Int(-20),
    ];
    let encoded = encode_list(list).unwrap();
    assert_eq!(encoded, b"l7:bencodei-20ee".to_vec());
}

#[test]
fn test_encode_empty_dict() {
    let dict: Vec<DictEntry> = Vec::new();
    let encoded = encode_dict(dict).unwrap();
    assert_eq!(encoded, b"de".to_vec());
}

#[test]
fn test_encode_dict_with_int() {
    let mut dict: Vec<DictEntry> = Vec::new();
    dict_insert(
        &mut dict,
        b"wiki".to_vec(),
        BencodeValue::Str("bencode".as_bytes().to_vec()),
    );
    dict_insert(&mut dict, b"meaning".to_vec(), BencodeValue::Int(42));
    let encoded = encode_dict(dict).unwrap();
    // Canonical form: keys ascend byte-lexicographically, so "meaning"
    // comes before "wiki".
    assert_eq!(encoded, b"d7:meaningi42e4:wiki7:bencodee".to_vec());
}

#[test]
fn test_encode_dict_with_string() {
    let mut dict: Vec<DictEntry> = Vec::new();
    dict_insert(
        &mut dict,
        b"name".to_vec(),
        BencodeValue::Str("Alice".as_bytes().to_vec()),
    );
    let encoded = encode_dict(dict).unwrap();
    assert_eq!(encoded, b"d4:name5:Alicee".to_vec());
}

#[test]
fn test_encode_dict_with_list() {
    let mut dict: Vec<DictEntry> = Vec::new();
    let list = vec![
        BencodeValue::Int(1),
        BencodeValue::Str("two".as_bytes().to_vec()),
    ];
    dict_insert(&mut dict, b"numbers".to_vec(), BencodeValue::List(list));
    let encoded = encode_dict(dict).unwrap();
    assert_eq!(encoded, b"d7:numbersli1e3:twoee".to_vec());
}

#[test]
fn test_nested_dict() {
    let mut dict: Vec<DictEntry> = Vec::new();
    let mut nested_dict: Vec<DictEntry> = Vec::new();
    dict_insert(
        &mut nested_dict,
        b"hello".to_vec(),
        BencodeValue::Str("world".as_bytes().to_vec()),
    );
    dict_insert(&mut dict, b"inner".to_vec(), BencodeValue::Dict(nested_dict));
    let encoded = encode_dict(dict).unwrap();
    assert_eq!(encoded, b"d5:innerd5:hello5:worldee".to_vec());
}
