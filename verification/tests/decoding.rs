use bencode::decode_integer;
use bencode::decode_string;

#[test]
fn test_valid_integers() {
    // Simple integer
    let data = b"i42e";
    let (val, rest) = decode_integer(data).unwrap();
    assert_eq!(val, 42);
    assert_eq!(rest, b"");

    // Zero
    let data = b"i0e";
    let (val, rest) = decode_integer(data).unwrap();
    assert_eq!(val, 0);
    assert_eq!(rest, b"");

    // Integer with remaining data
    let data = b"i123e456";
    let (val, rest) = decode_integer(data).unwrap();
    assert_eq!(val, 123);
    assert_eq!(rest, b"456");
}

#[test]
fn integer_test_invalid_format() {
    // Not starting with 'i'
    let data = b"42e";
    assert!(decode_integer(data).is_err());

    // Missing 'e'
    let data = b"i42";
    assert!(decode_integer(data).is_err());

    // Empty integer
    let data = b"ie";
    assert!(decode_integer(data).is_err());

    // Leading zeros
    let data = b"i042e";
    assert!(decode_integer(data).is_err());
}

#[test]
fn test_invalid_utf8() {
    // A byte that is no ASCII digit
    let data = b"i\xff42e";
    assert!(decode_integer(data).is_err());
}

#[test]
fn test_large_integer() {
    let data = b"i1234567890e";
    let (val, rest) = decode_integer(data).unwrap();
    assert_eq!(val, 1234567890);
    assert_eq!(rest, b"");
}

#[test]
fn test_valid_strings() {
    let data = b"5:hello";
    let (val, rest) = decode_string(data).unwrap();
    assert_eq!(val, b"hello");
    assert_eq!(rest, b"");

    let data = b"0:";
    let (val, rest) = decode_string(data).unwrap();
    assert_eq!(val, b"");
    assert_eq!(rest, b"");

    let data = b"3:abc123";
    let (val, rest) = decode_string(data).unwrap();
    assert_eq!(val, b"abc");
    assert_eq!(rest, b"123");

    // Arbitrary bytes
    let data = b"4:\xff\x00\xaa\xbb";
    let (val, rest) = decode_string(data).unwrap();
    assert_eq!(val, vec![0xff, 0x00, 0xaa, 0xbb]);
    assert_eq!(rest, b"");

    let data = b"1:\xff";
    let (val, _rest) = decode_string(data).unwrap();
    assert_eq!(val, vec![0xff])
}

#[test]
fn string_test_invalid_format() {
    let data = b"5hello"; // missing colon
    assert!(decode_string(data).is_err());

    let data = b":hello"; // empty length
    assert!(decode_string(data).is_err());

    let data = b"a:hello"; // non-digit
    assert!(decode_string(data).is_err());

    let data = b"10:short"; // not enough bytes
    assert!(decode_string(data).is_err());
}
