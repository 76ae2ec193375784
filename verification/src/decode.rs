//! The bencode decoder.
//!
//! Each function decodes exactly one item from the front of its input and
//! returns the value together with the unconsumed remainder, so callers
//! can parse streams of concatenated values.  Decoding is total: malformed
//! input yields a `DecodeError`, never a panic, and every function is
//! proved to return exactly what the corresponding `spec_decode_*`
//! function of the wire grammar says, on success and on failure alike.

use vstd::prelude::*;

use vstd::slice::slice_subrange;
use vstd::slice::slice_to_vec;

use crate::digits::all_digits;
use crate::digits::digits_val;
use crate::digits::find_byte;
use crate::digits::is_digit;
use crate::digits::lemma_digits_val_nonneg;
use crate::digits::lemma_digits_val_prefix_exceeds;
use crate::digits::lemma_digits_val_step;
use crate::value::dict_insert;
use crate::value::entries_view;
use crate::value::lemma_vals_view_push;
use crate::value::vals_view;
use crate::value::wf;
use crate::value::BencodeValue;
use crate::value::DictEntry;
use crate::value::SpecValue;
use crate::wire::spec_decode;
use crate::wire::spec_decode_dict;
use crate::wire::spec_decode_entries;
use crate::wire::spec_decode_integer;
use crate::wire::spec_decode_items;
use crate::wire::lemma_spec_decode_wf;
use crate::wire::spec_decode_list;
use crate::wire::spec_decode_string;
use crate::wire::DecodeError;
use crate::wire::BYTE_COLON;
use crate::wire::BYTE_DICT;
use crate::wire::BYTE_END;
use crate::wire::BYTE_INT;
use crate::wire::BYTE_LIST;
use crate::wire::BYTE_MINUS;

verus! {

/// Magnitude of the most negative 64-bit integer.
pub const I64_MIN_MAGNITUDE: u64 = 9223372036854775808;

/// Read the digits `data[from..to]` as a `u64`, or report that their value
/// exceeds `u64::MAX`.
#[verifier::loop_isolation(false)]
fn parse_u64_digits(data: &[u8], from: usize, to: usize) -> (r: Option<u64>)
    requires
        0 <= from <= to <= data@.len(),
        all_digits(data@.subrange(from as int, to as int)),
    ensures
        match r {
            Some(n) => n as int == digits_val(data@.subrange(from as int, to as int)),
            None => digits_val(data@.subrange(from as int, to as int)) > u64::MAX,
        },
{
    let ghost digs = data@.subrange(from as int, to as int);
    let mut acc: u64 = 0;
    let mut k: usize = from;
    proof {
        assert(digs.take(0) =~= Seq::<u8>::empty());
    }
    while k < to
        invariant
            from <= k <= to,
            acc as int == digits_val(digs.take(k - from)),
        decreases to - k,
    {
        proof {
            assert(digs[k - from] == data@[k as int]);
            assert(is_digit(digs[k - from]));
            lemma_digits_val_step(digs, k - from);
        }
        let d: u8 = data[k] - 48;
        if acc > (u64::MAX - (d as u64)) / 10 {
            proof {
                let prefix_val = digits_val(digs.take(k - from));
                assert(10 * prefix_val + (d as int) > u64::MAX) by (nonlinear_arith)
                    requires
                        prefix_val > (u64::MAX - (d as int)) / 10,
                        0 <= d <= 9,
                        prefix_val >= 0,
                {}
                assert(digits_val(digs.take(k - from + 1)) > u64::MAX);
                lemma_digits_val_prefix_exceeds(digs, k - from + 1, u64::MAX as int);
            }
            return None;
        }
        proof {
            let prefix_val = digits_val(digs.take(k - from));
            assert(10 * prefix_val + (d as int) <= u64::MAX) by (nonlinear_arith)
                requires
                    prefix_val <= (u64::MAX - (d as int)) / 10,
                    0 <= d <= 9,
                    prefix_val >= 0,
            {}
        }
        acc = acc * 10 + (d as u64);
        k = k + 1;
    }
    proof {
        assert(digs.take(to - from) =~= digs);
    }
    Some(acc)
}

/// Read the digits `data[from..to]` as a `usize`, or report that their
/// value exceeds `usize::MAX`.
#[verifier::loop_isolation(false)]
fn parse_usize_digits(data: &[u8], from: usize, to: usize) -> (r: Option<usize>)
    requires
        0 <= from <= to <= data@.len(),
        all_digits(data@.subrange(from as int, to as int)),
    ensures
        match r {
            Some(n) => n as int == digits_val(data@.subrange(from as int, to as int)),
            None => digits_val(data@.subrange(from as int, to as int)) > usize::MAX,
        },
{
    let ghost digs = data@.subrange(from as int, to as int);
    let mut acc: usize = 0;
    let mut k: usize = from;
    proof {
        assert(digs.take(0) =~= Seq::<u8>::empty());
    }
    while k < to
        invariant
            from <= k <= to,
            acc as int == digits_val(digs.take(k - from)),
        decreases to - k,
    {
        proof {
            assert(digs[k - from] == data@[k as int]);
            assert(is_digit(digs[k - from]));
            lemma_digits_val_step(digs, k - from);
        }
        let d: u8 = data[k] - 48;
        if acc > (usize::MAX - (d as usize)) / 10 {
            proof {
                let prefix_val = digits_val(digs.take(k - from));
                assert(10 * prefix_val + (d as int) > usize::MAX) by (nonlinear_arith)
                    requires
                        prefix_val > (usize::MAX - (d as int)) / 10,
                        0 <= d <= 9,
                        prefix_val >= 0,
                {}
                assert(digits_val(digs.take(k - from + 1)) > usize::MAX);
                lemma_digits_val_prefix_exceeds(digs, k - from + 1, usize::MAX as int);
            }
            return None;
        }
        proof {
            let prefix_val = digits_val(digs.take(k - from));
            assert(10 * prefix_val + (d as int) <= usize::MAX) by (nonlinear_arith)
                requires
                    prefix_val <= (usize::MAX - (d as int)) / 10,
                    0 <= d <= 9,
                    prefix_val >= 0,
            {}
        }
        acc = acc * 10 + (d as usize);
        k = k + 1;
    }
    proof {
        assert(digs.take(to - from) =~= digs);
    }
    Some(acc)
}

/// Check that `data[from..to]` holds decimal digits only.
#[verifier::loop_isolation(false)]
fn check_digits(data: &[u8], from: usize, to: usize) -> (r: bool)
    requires
        0 <= from <= to <= data@.len(),
    ensures
        r == all_digits(data@.subrange(from as int, to as int)),
{
    let ghost digs = data@.subrange(from as int, to as int);
    let mut k: usize = from;
    while k < to
        invariant
            from <= k <= to,
            forall|j: int| from <= j < k ==> is_digit(data@[j]),
        decreases to - k,
    {
        if data[k] < 48 || data[k] > 57 {
            proof {
                assert(digs[k - from] == data@[k as int]);
                assert(!is_digit(digs[k - from]));
            }
            return false;
        }
        k = k + 1;
    }
    proof {
        assert forall|j: int| 0 <= j < digs.len() implies is_digit(#[trigger] digs[j]) by {
            assert(digs[j] == data@[j + from]);
        }
    }
    true
}

/// Decode an integer `i<decimal>e` from the front of `data`, enforcing
/// canonical form: no empty literal, no superfluous leading zero, no
/// negative zero, digits only, and the value within `i64`.
#[verifier::loop_isolation(false)]
pub fn decode_integer(data: &[u8]) -> (r: Result<(i64, &[u8]), DecodeError>)
    ensures
        spec_decode_integer(data@) is Ok ==> r is Ok && r->Ok_0.0 as int == spec_decode_integer(
            data@,
        )->Ok_0.0 && r->Ok_0.1@ == spec_decode_integer(data@)->Ok_0.1,
        spec_decode_integer(data@) is Err ==> r is Err && r->Err_0 == spec_decode_integer(
            data@,
        )->Err_0,
        r is Ok ==> r->Ok_0.1@.len() < data@.len(),
{
    if data.len() == 0 {
        return Err(DecodeError::EmptyInput);
    }
    if data[0] != BYTE_INT {
        return Err(DecodeError::UnknownPrefix);
    }
    let end: usize = match find_byte(data, BYTE_END, 1) {
        None => {
            return Err(DecodeError::UnterminatedInteger);
        },
        Some(j) => j,
    };
    let ghost lit = data@.subrange(1, end as int);
    if end == 1 {
        return Err(DecodeError::EmptyIntegerLiteral);
    }
    let neg = data[1] == BYTE_MINUS;
    let digs_start: usize = if neg {
        2
    } else {
        1
    };
    let ghost digs = data@.subrange(digs_start as int, end as int);
    proof {
        assert(lit[0] == data@[1]);
        if neg {
            assert(lit.skip(1) =~= digs);
        } else {
            assert(lit =~= digs);
        }
    }
    if end == digs_start {
        return Err(DecodeError::EmptyIntegerLiteral);
    }
    proof {
        assert(digs[0] == data@[digs_start as int]);
    }
    if end - digs_start > 1 && data[digs_start] == 48 {
        return Err(DecodeError::LeadingZero);
    }
    if neg && data[digs_start] == 48 {
        return Err(DecodeError::NegativeZero);
    }
    if !check_digits(data, digs_start, end) {
        return Err(DecodeError::InvalidDigit);
    }
    proof {
        lemma_digits_val_nonneg(digs);
    }
    let magnitude: u64 = match parse_u64_digits(data, digs_start, end) {
        None => {
            return Err(DecodeError::IntegerOverflow);
        },
        Some(m) => m,
    };
    let rest = slice_subrange(data, end + 1, data.len());
    proof {
        assert(rest@ =~= data@.skip(end + 1));
    }
    if neg {
        if magnitude > I64_MIN_MAGNITUDE {
            return Err(DecodeError::IntegerOverflow);
        }
        let n: i64 = if magnitude == I64_MIN_MAGNITUDE {
            i64::MIN
        } else {
            -(magnitude as i64)
        };
        Ok((n, rest))
    } else {
        if magnitude > 9223372036854775807u64 {
            return Err(DecodeError::IntegerOverflow);
        }
        Ok((magnitude as i64, rest))
    }
}

/// Decode a byte string `<decimal length>:<raw bytes>` from the front of
/// `data`.  The bytes are returned verbatim; no text validation happens.
#[verifier::loop_isolation(false)]
pub fn decode_string(data: &[u8]) -> (r: Result<(Vec<u8>, &[u8]), DecodeError>)
    ensures
        spec_decode_string(data@) is Ok ==> r is Ok && r->Ok_0.0@ == spec_decode_string(
            data@,
        )->Ok_0.0 && r->Ok_0.1@ == spec_decode_string(data@)->Ok_0.1,
        spec_decode_string(data@) is Err ==> r is Err && r->Err_0 == spec_decode_string(
            data@,
        )->Err_0,
        r is Ok ==> r->Ok_0.1@.len() < data@.len(),
{
    if data.len() == 0 {
        return Err(DecodeError::EmptyInput);
    }
    let colon: usize = match find_byte(data, BYTE_COLON, 0) {
        None => {
            return Err(DecodeError::InvalidLength);
        },
        Some(c) => c,
    };
    if colon == 0 {
        return Err(DecodeError::InvalidLength);
    }
    let ghost lenfield = data@.take(colon as int);
    proof {
        assert(lenfield =~= data@.subrange(0, colon as int));
    }
    if !check_digits(data, 0, colon) {
        return Err(DecodeError::InvalidLength);
    }
    proof {
        lemma_digits_val_nonneg(lenfield);
    }
    let n: usize = match parse_usize_digits(data, 0, colon) {
        None => {
            return Err(DecodeError::InvalidLength);
        },
        Some(m) => m,
    };
    let start: usize = colon + 1;
    if data.len() - start < n {
        return Err(DecodeError::TruncatedByteString);
    }
    let content = slice_to_vec(slice_subrange(data, start, start + n));
    let rest = slice_subrange(data, start + n, data.len());
    proof {
        assert(rest@ =~= data@.skip(start + n));
    }
    Ok((content, rest))
}

/// Decode one value from the front of `data`, dispatching on its first
/// byte: a digit starts a byte string, `i` an integer, `l` a list, `d` a
/// dictionary.  The remainder after the value is returned for the caller.
#[verifier::loop_isolation(false)]
pub fn decode_bencode(data: &[u8]) -> (r: Result<(BencodeValue, &[u8]), DecodeError>)
    ensures
        spec_decode(data@) is Ok ==> r is Ok && r->Ok_0.0@ == spec_decode(data@)->Ok_0.0
            && r->Ok_0.1@ == spec_decode(data@)->Ok_0.1,
        spec_decode(data@) is Err ==> r is Err && r->Err_0 == spec_decode(data@)->Err_0,
        r is Ok ==> r->Ok_0.1@.len() < data@.len(),
        r is Ok ==> wf(r->Ok_0.0@),
    decreases data@.len(), 1int,
{
    proof {
        lemma_spec_decode_wf(data@);
    }
    if data.len() == 0 {
        return Err(DecodeError::EmptyInput);
    }
    let b = data[0];
    if 48 <= b && b <= 57 {
        match decode_string(data) {
            Ok((bytes, rest)) => Ok((BencodeValue::Str(bytes), rest)),
            Err(e) => Err(e),
        }
    } else if b == BYTE_INT {
        match decode_integer(data) {
            Ok((n, rest)) => Ok((BencodeValue::Int(n), rest)),
            Err(e) => Err(e),
        }
    } else if b == BYTE_LIST {
        match decode_list(data) {
            Ok((items, rest)) => Ok((BencodeValue::List(items), rest)),
            Err(e) => Err(e),
        }
    } else if b == BYTE_DICT {
        match decode_dictionary(data) {
            Ok((entries, rest)) => Ok((BencodeValue::Dict(entries), rest)),
            Err(e) => Err(e),
        }
    } else {
        Err(DecodeError::UnknownPrefix)
    }
}

/// Decode a list `l<value>*e` from the front of `data`.  Elements may be
/// of mixed kinds; their order is preserved exactly.
#[verifier::loop_isolation(false)]
pub fn decode_list(data: &[u8]) -> (r: Result<(Vec<BencodeValue>, &[u8]), DecodeError>)
    ensures
        spec_decode_list(data@) is Ok ==> r is Ok && vals_view(r->Ok_0.0@) == spec_decode_list(
            data@,
        )->Ok_0.0 && r->Ok_0.1@ == spec_decode_list(data@)->Ok_0.1,
        spec_decode_list(data@) is Err ==> r is Err && r->Err_0 == spec_decode_list(
            data@,
        )->Err_0,
        r is Ok ==> r->Ok_0.1@.len() < data@.len(),
    decreases data@.len(), 0int,
{
    if data.len() == 0 {
        return Err(DecodeError::EmptyInput);
    }
    if data[0] != BYTE_LIST {
        return Err(DecodeError::UnknownPrefix);
    }
    let ghost s0 = data@.skip(1);
    let mut items: Vec<BencodeValue> = Vec::new();
    let mut rest: &[u8] = slice_subrange(data, 1, data.len());
    proof {
        assert(rest@ =~= s0);
        match spec_decode_items(s0) {
            Ok(pair) => {
                assert(vals_view(items@) + pair.0 =~= pair.0);
            },
            Err(e) => {},
        }
    }
    loop
        invariant
            rest@.len() < data@.len(),
            spec_decode_items(s0) == match spec_decode_items(rest@) {
                Ok(pair) => Ok::<(Seq<SpecValue>, Seq<u8>), DecodeError>(
                    (vals_view(items@) + pair.0, pair.1),
                ),
                Err(e) => Err(e),
            },
        decreases rest@.len(),
    {
        if rest.len() == 0 {
            return Err(DecodeError::UnterminatedList);
        }
        if rest[0] == BYTE_END {
            let out = slice_subrange(rest, 1, rest.len());
            proof {
                assert(out@ =~= rest@.skip(1));
                assert(vals_view(items@) + Seq::<SpecValue>::empty() =~= vals_view(items@));
            }
            return Ok((items, out));
        }
        match decode_bencode(rest) {
            Err(e) => {
                return Err(e);
            },
            Ok((v, new_rest)) => {
                proof {
                    let ghost old_items = items@;
                    lemma_vals_view_push(old_items, v);
                    match spec_decode_items(new_rest@) {
                        Ok(pair) => {
                            assert(vals_view(old_items) + (seq![v@] + pair.0) =~= (vals_view(
                                old_items,
                            ) + seq![v@]) + pair.0);
                            assert(vals_view(old_items) + seq![v@] =~= vals_view(
                                old_items,
                            ).push(v@));
                        },
                        Err(e) => {},
                    }
                }
                items.push(v);
                rest = new_rest;
            },
        }
    }
}

/// Decode a dictionary `d(<byte-string key><value>)*e` from the front of
/// `data`.  Keys need not arrive sorted: entries are folded into a
/// key-sorted dictionary, and a duplicate key keeps its last value.
#[verifier::loop_isolation(false)]
pub fn decode_dictionary(data: &[u8]) -> (r: Result<(Vec<DictEntry>, &[u8]), DecodeError>)
    ensures
        spec_decode_dict(data@) is Ok ==> r is Ok && entries_view(r->Ok_0.0@)
            == spec_decode_dict(data@)->Ok_0.0 && r->Ok_0.1@ == spec_decode_dict(
            data@,
        )->Ok_0.1,
        spec_decode_dict(data@) is Err ==> r is Err && r->Err_0 == spec_decode_dict(
            data@,
        )->Err_0,
        r is Ok ==> r->Ok_0.1@.len() < data@.len(),
    decreases data@.len(), 0int,
{
    if data.len() == 0 {
        return Err(DecodeError::EmptyInput);
    }
    if data[0] != BYTE_DICT {
        return Err(DecodeError::UnknownPrefix);
    }
    let ghost s0 = data@.skip(1);
    let mut entries: Vec<DictEntry> = Vec::new();
    let mut rest: &[u8] = slice_subrange(data, 1, data.len());
    proof {
        assert(rest@ =~= s0);
        assert(entries_view(entries@) =~= Seq::<(Seq<u8>, SpecValue)>::empty());
    }
    loop
        invariant
            rest@.len() < data@.len(),
            spec_decode_entries(s0, Seq::empty()) == spec_decode_entries(
                rest@,
                entries_view(entries@),
            ),
        decreases rest@.len(),
    {
        if rest.len() == 0 {
            return Err(DecodeError::UnterminatedDictionary);
        }
        if rest[0] == BYTE_END {
            let out = slice_subrange(rest, 1, rest.len());
            proof {
                assert(out@ =~= rest@.skip(1));
            }
            return Ok((entries, out));
        }
        match decode_bencode(rest) {
            Err(e) => {
                return Err(e);
            },
            Ok((kv, r1)) => {
                match kv {
                    BencodeValue::Str(key_bytes) => {
                        match decode_bencode(r1) {
                            Err(e) => {
                                return Err(e);
                            },
                            Ok((val, r2)) => {
                                dict_insert(&mut entries, key_bytes, val);
                                rest = r2;
                            },
                        }
                    },
                    _ => {
                        return Err(DecodeError::NonStringKey);
                    },
                }
            },
        }
    }
}

} // verus!
