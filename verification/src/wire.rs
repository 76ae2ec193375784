//! The bencode wire format, as mathematics.
//!
//! `spec_encode` is the canonical byte form of a value.  The
//! `spec_decode_*` family is the grammar read as a recursive-descent
//! parser over byte sequences: each function consumes a prefix of its
//! input and yields the value together with the unconsumed remainder, or
//! the precise error for a malformed prefix.  The executable decoder and
//! encoder are verified against these functions, and the round-trip laws
//! are theorems about them.
//!
//! Decoding is deliberately more permissive than encoding: a dictionary
//! may arrive with unsorted or duplicate keys (the last occurrence of a
//! key wins), while the encoder always emits keys in strictly ascending
//! byte order.

use vstd::prelude::*;

use crate::digits::all_digits;
use crate::digits::dec_digits;
use crate::digits::digits_val;
use crate::digits::is_digit;
use crate::digits::spec_find;
use crate::value::entries_sorted;
use crate::value::lemma_entries_insert_sorted;
use crate::value::lemma_entries_insert_wf;
use crate::value::spec_entries_insert;
use crate::value::wf;
use crate::value::wf_entries;
use crate::value::SpecValue;

verus! {

/// ASCII `i`, the integer prefix.
pub const BYTE_INT: u8 = 105;

/// ASCII `l`, the list prefix.
pub const BYTE_LIST: u8 = 108;

/// ASCII `d`, the dictionary prefix.
pub const BYTE_DICT: u8 = 100;

/// ASCII `e`, the terminator of integers, lists and dictionaries.
pub const BYTE_END: u8 = 101;

/// ASCII `:`, the separator between a length field and its bytes.
pub const BYTE_COLON: u8 = 58;

/// ASCII `-`, the sign of a negative integer literal.
pub const BYTE_MINUS: u8 = 45;

/// Why a byte buffer failed to decode.  Decoding never panics: every
/// malformed input maps to exactly one of these.
#[derive(Clone, Copy, Debug, PartialEq, Eq, Structural)]
pub enum DecodeError {
    /// Zero-length input where a value was expected.
    EmptyInput,
    /// The first byte matches none of `0`-`9`, `i`, `l`, `d`.
    UnknownPrefix,
    /// Byte-string length field missing, empty, non-digit, or overflowing.
    InvalidLength,
    /// Declared byte-string length exceeds the remaining input.
    TruncatedByteString,
    /// No terminating `e` found for an integer.
    UnterminatedInteger,
    /// Integer literal holds no digits.
    EmptyIntegerLiteral,
    /// Integer literal with a superfluous leading zero.
    LeadingZero,
    /// The literal `-0`, which has no canonical meaning.
    NegativeZero,
    /// A non-digit where an integer digit was expected.
    InvalidDigit,
    /// Integer literal outside the signed 64-bit range.
    IntegerOverflow,
    /// Input exhausted before a list's closing `e`.
    UnterminatedList,
    /// Input exhausted before a dictionary's closing `e`.
    UnterminatedDictionary,
    /// A dictionary key position decoded to a non-byte-string value.
    NonStringKey,
}

/// The decimal literal of a signed integer: a minus sign for negative
/// values, then the canonical digits of the magnitude.
pub open spec fn spec_int_literal(i: int) -> Seq<u8> {
    if i < 0 {
        seq![BYTE_MINUS] + dec_digits((-i) as nat)
    } else {
        dec_digits(i as nat)
    }
}

/// The wire form of a byte string: decimal length, `:`, then the bytes.
pub open spec fn spec_str_encoding(s: Seq<u8>) -> Seq<u8> {
    dec_digits(s.len()) + seq![BYTE_COLON] + s
}

/// The canonical encoding of a value.
pub open spec fn spec_encode(v: SpecValue) -> Seq<u8>
    decreases v, 0int,
{
    match v {
        SpecValue::Int(i) => seq![BYTE_INT] + spec_int_literal(i) + seq![BYTE_END],
        SpecValue::Str(s) => spec_str_encoding(s),
        SpecValue::List(items) => seq![BYTE_LIST] + spec_encode_items(items, 0) + seq![BYTE_END],
        SpecValue::Dict(entries) => seq![BYTE_DICT] + spec_encode_entries(entries, 0) + seq![BYTE_END],
    }
}

/// The concatenated encodings of the list elements from position `i` on.
pub open spec fn spec_encode_items(items: Seq<SpecValue>, i: int) -> Seq<u8>
    decreases items, items.len() - i,
{
    if i < 0 || i >= items.len() {
        Seq::empty()
    } else {
        spec_encode(items[i]) + spec_encode_items(items, i + 1)
    }
}

/// The concatenated encodings of the dictionary entries from position `i`
/// on: each key as a byte string, then its value.
pub open spec fn spec_encode_entries(entries: Seq<(Seq<u8>, SpecValue)>, i: int) -> Seq<u8>
    decreases entries, entries.len() - i,
{
    if i < 0 || i >= entries.len() {
        Seq::empty()
    } else {
        spec_str_encoding(entries[i].0) + spec_encode(entries[i].1) + spec_encode_entries(
            entries,
            i + 1,
        )
    }
}

/// Read an integer literal (the bytes between `i` and `e`) under the
/// canonical-form rules: non-empty, no superfluous leading zero, no
/// negative zero, digits only, and within the signed 64-bit range.
pub open spec fn spec_parse_int_literal(lit: Seq<u8>) -> Result<int, DecodeError> {
    if lit.len() == 0 {
        Err(DecodeError::EmptyIntegerLiteral)
    } else {
        let neg = lit[0] == BYTE_MINUS;
        let digs = if neg {
            lit.skip(1)
        } else {
            lit
        };
        if digs.len() == 0 {
            Err(DecodeError::EmptyIntegerLiteral)
        } else if digs.len() > 1 && digs[0] == 48 {
            Err(DecodeError::LeadingZero)
        } else if neg && digs[0] == 48 {
            Err(DecodeError::NegativeZero)
        } else if !all_digits(digs) {
            Err(DecodeError::InvalidDigit)
        } else {
            let n = if neg {
                -digits_val(digs)
            } else {
                digits_val(digs)
            };
            if n < i64::MIN || n > i64::MAX {
                Err(DecodeError::IntegerOverflow)
            } else {
                Ok(n)
            }
        }
    }
}

/// Decode an integer `i<decimal>e` from the front of `s`.
pub open spec fn spec_decode_integer(s: Seq<u8>) -> Result<(int, Seq<u8>), DecodeError> {
    if s.len() == 0 {
        Err(DecodeError::EmptyInput)
    } else if s[0] != BYTE_INT {
        Err(DecodeError::UnknownPrefix)
    } else {
        match spec_find(s, BYTE_END, 1) {
            None => Err(DecodeError::UnterminatedInteger),
            Some(j) => match spec_parse_int_literal(s.subrange(1, j)) {
                Ok(n) => Ok((n, s.skip(j + 1))),
                Err(e) => Err(e),
            },
        }
    }
}

/// Decode a byte string `<decimal length>:<raw bytes>` from the front of
/// `s`.  The bytes are opaque: no text validation happens here.
pub open spec fn spec_decode_string(s: Seq<u8>) -> Result<(Seq<u8>, Seq<u8>), DecodeError> {
    if s.len() == 0 {
        Err(DecodeError::EmptyInput)
    } else {
        match spec_find(s, BYTE_COLON, 0) {
            None => Err(DecodeError::InvalidLength),
            Some(c) => {
                if c == 0 {
                    Err(DecodeError::InvalidLength)
                } else if !all_digits(s.take(c)) {
                    Err(DecodeError::InvalidLength)
                } else {
                    let n = digits_val(s.take(c));
                    if n > usize::MAX {
                        Err(DecodeError::InvalidLength)
                    } else if s.len() - (c + 1) < n {
                        Err(DecodeError::TruncatedByteString)
                    } else {
                        Ok((s.subrange(c + 1, c + 1 + n), s.skip(c + 1 + n)))
                    }
                }
            },
        }
    }
}

/// Decode one value from the front of `s`, dispatching on the first byte.
pub open spec fn spec_decode(s: Seq<u8>) -> Result<(SpecValue, Seq<u8>), DecodeError>
    decreases s.len(), 1int,
{
    if s.len() == 0 {
        Err(DecodeError::EmptyInput)
    } else if is_digit(s[0]) {
        match spec_decode_string(s) {
            Ok((b, r)) => Ok((SpecValue::Str(b), r)),
            Err(e) => Err(e),
        }
    } else if s[0] == BYTE_INT {
        match spec_decode_integer(s) {
            Ok((n, r)) => Ok((SpecValue::Int(n), r)),
            Err(e) => Err(e),
        }
    } else if s[0] == BYTE_LIST {
        match spec_decode_list(s) {
            Ok((items, r)) => Ok((SpecValue::List(items), r)),
            Err(e) => Err(e),
        }
    } else if s[0] == BYTE_DICT {
        match spec_decode_dict(s) {
            Ok((entries, r)) => Ok((SpecValue::Dict(entries), r)),
            Err(e) => Err(e),
        }
    } else {
        Err(DecodeError::UnknownPrefix)
    }
}

/// Decode a list `l<value>*e` from the front of `s`.
pub open spec fn spec_decode_list(s: Seq<u8>) -> Result<(Seq<SpecValue>, Seq<u8>), DecodeError>
    decreases s.len(), 0int,
{
    if s.len() == 0 {
        Err(DecodeError::EmptyInput)
    } else if s[0] != BYTE_LIST {
        Err(DecodeError::UnknownPrefix)
    } else {
        spec_decode_items(s.skip(1))
    }
}

/// Decode a dictionary `d(<byte-string key><value>)*e` from the front of
/// `s`.  Keys need not arrive sorted; duplicate keys are resolved by
/// last-write-wins.
pub open spec fn spec_decode_dict(s: Seq<u8>) -> Result<
    (Seq<(Seq<u8>, SpecValue)>, Seq<u8>),
    DecodeError,
>
    decreases s.len(), 0int,
{
    if s.len() == 0 {
        Err(DecodeError::EmptyInput)
    } else if s[0] != BYTE_DICT {
        Err(DecodeError::UnknownPrefix)
    } else {
        spec_decode_entries(s.skip(1), Seq::empty())
    }
}

/// Decode list elements until the closing `e`, prepending each decoded
/// value.  The bound checks on the remainder only name what is already
/// true of every successful decode step: a step always consumes at least
/// one byte.
pub open spec fn spec_decode_items(s: Seq<u8>) -> Result<(Seq<SpecValue>, Seq<u8>), DecodeError>
    decreases s.len(), 2int,
{
    if s.len() == 0 {
        Err(DecodeError::UnterminatedList)
    } else if s[0] == BYTE_END {
        Ok((Seq::empty(), s.skip(1)))
    } else {
        match spec_decode(s) {
            Err(e) => Err(e),
            Ok((v, r)) => if r.len() < s.len() {
                match spec_decode_items(r) {
                    Err(e) => Err(e),
                    Ok((tail, r2)) => Ok((seq![v] + tail, r2)),
                }
            } else {
                Err(DecodeError::UnterminatedList)
            },
        }
    }
}

/// Decode dictionary entries until the closing `e`, folding each key/value
/// pair into the accumulated, key-sorted entry sequence.  A later
/// occurrence of a key overwrites an earlier one.
pub open spec fn spec_decode_entries(s: Seq<u8>, acc: Seq<(Seq<u8>, SpecValue)>) -> Result<
    (Seq<(Seq<u8>, SpecValue)>, Seq<u8>),
    DecodeError,
>
    decreases s.len(), 2int,
{
    if s.len() == 0 {
        Err(DecodeError::UnterminatedDictionary)
    } else if s[0] == BYTE_END {
        Ok((acc, s.skip(1)))
    } else {
        match spec_decode(s) {
            Err(e) => Err(e),
            Ok((kv, r1)) => match kv {
                SpecValue::Str(k) => if r1.len() <= s.len() {
                    match spec_decode(r1) {
                        Err(e) => Err(e),
                        Ok((v, r2)) => if r2.len() < s.len() {
                            spec_decode_entries(r2, spec_entries_insert(acc, k, v))
                        } else {
                            Err(DecodeError::UnterminatedDictionary)
                        },
                    }
                } else {
                    Err(DecodeError::UnterminatedDictionary)
                },
                _ => Err(DecodeError::NonStringKey),
            },
        }
    }
}

/// A successfully decoded value is well formed: its integers fit the
/// wire width, its byte strings fit in memory, and its dictionaries keep
/// their keys strictly ascending.
pub proof fn lemma_spec_decode_wf(s: Seq<u8>)
    ensures
        spec_decode(s) is Ok ==> wf(spec_decode(s)->Ok_0.0),
    decreases s.len(), 1int,
{
    if s.len() == 0 {
    } else if is_digit(s[0]) {
        crate::digits::lemma_spec_find_props(s, BYTE_COLON, 0);
        match spec_find(s, BYTE_COLON, 0) {
            Some(c) => {
                if all_digits(s.take(c)) {
                    crate::digits::lemma_digits_val_nonneg(s.take(c));
                }
            },
            None => {},
        }
        match spec_decode_string(s) {
            Ok((b, r)) => {
                let c = spec_find(s, BYTE_COLON, 0)->Some_0;
                let n = digits_val(s.take(c));
                assert(n >= 0);
                assert(b.len() == n);
                assert(wf(SpecValue::Str(b)));
            },
            Err(e) => {},
        }
    } else if s[0] == BYTE_INT {
        match spec_decode_integer(s) {
            Ok((n, r)) => {
                assert(wf(SpecValue::Int(n)));
            },
            Err(e) => {},
        }
    } else if s[0] == BYTE_LIST {
        lemma_spec_decode_list_wf(s);
        match spec_decode_list(s) {
            Ok((items, r)) => {
                assert(wf(SpecValue::List(items)));
            },
            Err(e) => {},
        }
    } else if s[0] == BYTE_DICT {
        lemma_spec_decode_dict_wf(s);
        match spec_decode_dict(s) {
            Ok((entries, r)) => {
                assert(wf(SpecValue::Dict(entries)));
            },
            Err(e) => {},
        }
    }
}

proof fn lemma_spec_decode_list_wf(s: Seq<u8>)
    ensures
        spec_decode_list(s) is Ok ==> wf(SpecValue::List(spec_decode_list(s)->Ok_0.0)),
    decreases s.len(), 0int,
{
    if s.len() > 0 && s[0] == BYTE_LIST {
        lemma_spec_decode_items_wf(s.skip(1));
        match spec_decode_items(s.skip(1)) {
            Ok((items, r)) => {
                assert(forall|j: int| 0 <= j < items.len() ==> wf(#[trigger] items[j]));
            },
            Err(e) => {},
        }
    }
}

proof fn lemma_spec_decode_dict_wf(s: Seq<u8>)
    ensures
        spec_decode_dict(s) is Ok ==> wf(SpecValue::Dict(spec_decode_dict(s)->Ok_0.0)),
    decreases s.len(), 0int,
{
    if s.len() > 0 && s[0] == BYTE_DICT {
        lemma_spec_decode_entries_wf(s.skip(1), Seq::empty());
    }
}

proof fn lemma_spec_decode_items_wf(s: Seq<u8>)
    ensures
        spec_decode_items(s) is Ok ==> forall|j: int|
            0 <= j < spec_decode_items(s)->Ok_0.0.len() ==> wf(
                #[trigger] spec_decode_items(s)->Ok_0.0[j],
            ),
    decreases s.len(), 2int,
{
    if s.len() == 0 {
    } else if s[0] == BYTE_END {
    } else {
        match spec_decode(s) {
            Err(e) => {},
            Ok((v, r)) => {
                lemma_spec_decode_wf(s);
                if r.len() < s.len() {
                    lemma_spec_decode_items_wf(r);
                    match spec_decode_items(r) {
                        Err(e) => {},
                        Ok((tail, r2)) => {
                            assert(wf(v));
                            let whole = seq![v] + tail;
                            assert forall|j: int| 0 <= j < whole.len() implies wf(
                                #[trigger] whole[j],
                            ) by {
                                if j == 0 {
                                    assert(whole[0] == v);
                                } else {
                                    assert(whole[j] == tail[j - 1]);
                                }
                            }
                        },
                    }
                }
            },
        }
    }
}

proof fn lemma_spec_decode_entries_wf(s: Seq<u8>, acc: Seq<(Seq<u8>, SpecValue)>)
    requires
        wf_entries(acc),
        entries_sorted(acc),
    ensures
        spec_decode_entries(s, acc) is Ok ==> wf(
            SpecValue::Dict(spec_decode_entries(s, acc)->Ok_0.0),
        ),
    decreases s.len(), 2int,
{
    if s.len() == 0 {
    } else if s[0] == BYTE_END {
    } else {
        match spec_decode(s) {
            Err(e) => {},
            Ok((kv, r1)) => {
                lemma_spec_decode_wf(s);
                match kv {
                    SpecValue::Str(k) => {
                        if r1.len() <= s.len() {
                            match spec_decode(r1) {
                                Err(e) => {},
                                Ok((v, r2)) => {
                                    lemma_spec_decode_wf(r1);
                                    if r2.len() < s.len() {
                                        lemma_entries_insert_wf(acc, k, v);
                                        lemma_entries_insert_sorted(acc, k, v);
                                        lemma_spec_decode_entries_wf(
                                            r2,
                                            spec_entries_insert(acc, k, v),
                                        );
                                    }
                                },
                            }
                        }
                    },
                    _ => {},
                }
            },
        }
    }
}

} // verus!
