//! Edge cases of the wire grammar: boundary literals, truncation, key
//! policy, and one input for every decode error.

use bencode::decode_bencode;
use bencode::decode_dictionary;
use bencode::decode_integer;
use bencode::decode_list;
use bencode::decode_string;
use bencode::BencodeValue;
use bencode::DecodeError;

#[test]
fn boundary_literals() {
    // i0e is the canonical zero.
    let (val, rest) = decode_bencode(b"i0e").unwrap();
    assert_eq!(val, BencodeValue::Int(0));
    assert_eq!(rest, b"");

    // A superfluous leading zero is rejected, not auto-corrected.
    assert_eq!(decode_integer(b"i042e").unwrap_err(), DecodeError::LeadingZero);

    // Negative zero has no canonical meaning.
    assert_eq!(decode_integer(b"i-0e").unwrap_err(), DecodeError::NegativeZero);

    // The empty byte string round-trips through the length prefix.
    let (val, rest) = decode_string(b"0:").unwrap();
    assert_eq!(val, b"");
    assert_eq!(rest, b"");
}

#[test]
fn truncated_byte_string() {
    assert_eq!(
        decode_string(b"5:ab").unwrap_err(),
        DecodeError::TruncatedByteString
    );
    assert_eq!(
        decode_bencode(b"5:ab").unwrap_err(),
        DecodeError::TruncatedByteString
    );
}

#[test]
fn remainder_after_integer() {
    let (val, rest) = decode_bencode(b"i42exyz").unwrap();
    assert_eq!(val, BencodeValue::Int(42));
    assert_eq!(rest, b"xyz");

    let (val, rest) = decode_bencode(b"i42e5:hello").unwrap();
    assert_eq!(val, BencodeValue::Int(42));
    assert_eq!(rest, b"5:hello");
}

#[test]
fn non_string_key_rejected() {
    assert_eq!(
        decode_bencode(b"di1ei2ee").unwrap_err(),
        DecodeError::NonStringKey
    );
    assert_eq!(
        decode_dictionary(b"di1ei2ee").unwrap_err(),
        DecodeError::NonStringKey
    );
}

#[test]
fn duplicate_key_last_write_wins() {
    let (val, rest) = decode_bencode(b"d1:ai1e1:ai2ee").unwrap();
    assert_eq!(rest, b"");
    match val {
        BencodeValue::Dict(entries) => {
            assert_eq!(entries.len(), 1);
            assert_eq!(entries[0].key, b"a".to_vec());
            assert_eq!(entries[0].value, BencodeValue::Int(2));
        },
        other => panic!("expected a dictionary, got {:?}", other),
    }
}

#[test]
fn empty_input_error() {
    assert_eq!(decode_bencode(b"").unwrap_err(), DecodeError::EmptyInput);
    assert_eq!(decode_integer(b"").unwrap_err(), DecodeError::EmptyInput);
    assert_eq!(decode_string(b"").unwrap_err(), DecodeError::EmptyInput);
    assert_eq!(decode_list(b"").unwrap_err(), DecodeError::EmptyInput);
    assert_eq!(decode_dictionary(b"").unwrap_err(), DecodeError::EmptyInput);
}

#[test]
fn unknown_prefix_error() {
    assert_eq!(decode_bencode(b"x42e").unwrap_err(), DecodeError::UnknownPrefix);
    assert_eq!(decode_integer(b"42e").unwrap_err(), DecodeError::UnknownPrefix);
    assert_eq!(decode_list(b"i1e").unwrap_err(), DecodeError::UnknownPrefix);
    assert_eq!(decode_dictionary(b"le").unwrap_err(), DecodeError::UnknownPrefix);
}

#[test]
fn invalid_length_error() {
    // No colon anywhere.
    assert_eq!(decode_string(b"5hello").unwrap_err(), DecodeError::InvalidLength);
    // Empty length field.
    assert_eq!(decode_string(b":hello").unwrap_err(), DecodeError::InvalidLength);
    // Non-digit in the length field.
    assert_eq!(decode_string(b"1a:hello").unwrap_err(), DecodeError::InvalidLength);
    // Length field overflowing the machine word.
    assert_eq!(
        decode_string(b"99999999999999999999999999:x").unwrap_err(),
        DecodeError::InvalidLength
    );
}

#[test]
fn unterminated_integer_error() {
    assert_eq!(
        decode_integer(b"i42").unwrap_err(),
        DecodeError::UnterminatedInteger
    );
}

#[test]
fn empty_integer_literal_error() {
    assert_eq!(
        decode_integer(b"ie").unwrap_err(),
        DecodeError::EmptyIntegerLiteral
    );
    // A sign with no digits is as empty as no literal at all.
    assert_eq!(
        decode_integer(b"i-e").unwrap_err(),
        DecodeError::EmptyIntegerLiteral
    );
}

#[test]
fn invalid_digit_error() {
    assert_eq!(decode_integer(b"i4x2e").unwrap_err(), DecodeError::InvalidDigit);
    assert_eq!(decode_integer(b"i1-2e").unwrap_err(), DecodeError::InvalidDigit);
}

#[test]
fn integer_overflow_error() {
    // One above i64::MAX and one below i64::MIN.
    assert_eq!(
        decode_integer(b"i9223372036854775808e").unwrap_err(),
        DecodeError::IntegerOverflow
    );
    assert_eq!(
        decode_integer(b"i-9223372036854775809e").unwrap_err(),
        DecodeError::IntegerOverflow
    );
    // The two extremes themselves are within range.
    let (val, _) = decode_integer(b"i9223372036854775807e").unwrap();
    assert_eq!(val, i64::MAX);
    let (val, _) = decode_integer(b"i-9223372036854775808e").unwrap();
    assert_eq!(val, i64::MIN);
}

#[test]
fn unterminated_list_error() {
    assert_eq!(
        decode_list(b"li1e").unwrap_err(),
        DecodeError::UnterminatedList
    );
    assert_eq!(
        decode_bencode(b"li1e").unwrap_err(),
        DecodeError::UnterminatedList
    );
}

#[test]
fn unterminated_dictionary_error() {
    assert_eq!(
        decode_dictionary(b"d1:ai1e").unwrap_err(),
        DecodeError::UnterminatedDictionary
    );
    assert_eq!(
        decode_bencode(b"d").unwrap_err(),
        DecodeError::UnterminatedDictionary
    );
}

#[test]
fn unsorted_input_still_decodes() {
    // Decoding is permissive about key order; the result is re-sorted.
    let (val, rest) = decode_bencode(b"d1:bi1e1:ai2ee").unwrap();
    assert_eq!(rest, b"");
    match val {
        BencodeValue::Dict(entries) => {
            assert_eq!(entries.len(), 2);
            assert_eq!(entries[0].key, b"a".to_vec());
            assert_eq!(entries[0].value, BencodeValue::Int(2));
            assert_eq!(entries[1].key, b"b".to_vec());
            assert_eq!(entries[1].value, BencodeValue::Int(1));
        },
        other => panic!("expected a dictionary, got {:?}", other),
    }
}
