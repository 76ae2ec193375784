//! A verified codec for the bencode wire format.
//!
//! Bencode is a compact, self-describing, length-prefixed serialization
//! format with four value kinds: signed integers, raw byte strings,
//! ordered lists, and dictionaries keyed by byte strings.  The decoder
//! parses one value from the front of a byte buffer and hands back the
//! unconsumed remainder; the encoder serializes a value tree into the
//! canonical byte form (dictionary keys in ascending byte order, decimal
//! literals without superfluous leading zeros).

pub mod decode;
pub mod digits;
pub mod encode;
pub mod order;
pub mod roundtrip;
pub mod value;
pub mod wire;

pub use decode::decode_bencode;
pub use decode::decode_dictionary;
pub use decode::decode_integer;
pub use decode::decode_list;
pub use decode::decode_string;
pub use encode::encode_bencode;
pub use encode::encode_dict;
pub use encode::encode_integer;
pub use encode::encode_list;
pub use encode::encode_string;
pub use order::key_compare;
pub use order::KeyOrder;
pub use roundtrip::lemma_canonical_reencode;
pub use roundtrip::lemma_integer_remainder;
pub use roundtrip::lemma_round_trip;
pub use roundtrip::lemma_round_trip_exact;
pub use value::dict_insert;
pub use value::BencodeValue;
pub use value::DictEntry;
pub use value::SpecValue;
pub use wire::DecodeError;
