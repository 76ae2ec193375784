//! The bencode encoder.
//!
//! Serializing is total: every value tree has exactly one canonical byte
//! form, `spec_encode` of its view, and each function here is proved to
//! produce it.  The public entry points mirror the four value kinds plus
//! the dispatcher `encode_bencode`; they return `Result` for interface
//! stability although encoding cannot fail.

use vstd::prelude::*;

use crate::digits::dec_digits;
use crate::value::entries_view;
use crate::value::lemma_entries_view;
use crate::value::lemma_vals_view;
use crate::value::vals_view;
use crate::value::BencodeValue;
use crate::value::DictEntry;
use crate::value::SpecValue;
use crate::wire::spec_encode;
use crate::wire::spec_encode_entries;
use crate::wire::spec_encode_items;
use crate::wire::spec_int_literal;
use crate::wire::spec_str_encoding;
use crate::wire::BYTE_COLON;
use crate::wire::BYTE_DICT;
use crate::wire::BYTE_END;
use crate::wire::BYTE_INT;
use crate::wire::BYTE_LIST;
use crate::wire::BYTE_MINUS;

verus! {

/// Append the canonical decimal digits of `n`.
fn push_decimal(n: u64, out: &mut Vec<u8>)
    ensures
        final(out)@ == old(out)@ + dec_digits(n as nat),
    decreases n,
{
    if n < 10 {
        out.push((n as u8) + 48);
        proof {
            assert(old(out)@.push(((n + 48) as u8)) =~= old(out)@ + dec_digits(n as nat));
        }
    } else {
        push_decimal(n / 10, out);
        out.push(((n % 10) as u8) + 48);
        proof {
            assert((old(out)@ + dec_digits((n / 10) as nat)).push(((n % 10 + 48) as u8))
                =~= old(out)@ + dec_digits(n as nat));
        }
    }
}

/// Append the bytes of `src` verbatim.
fn push_bytes(src: &Vec<u8>, out: &mut Vec<u8>)
    ensures
        final(out)@ == old(out)@ + src@,
{
    let mut i: usize = 0;
    while i < src.len()
        invariant
            0 <= i <= src@.len(),
            out@ == old(out)@ + src@.take(i as int),
        decreases src@.len() - i,
    {
        let ghost before = out@;
        out.push(src[i]);
        proof {
            assert(before.push(src@[i as int]) =~= old(out)@ + src@.take(i + 1));
        }
        i = i + 1;
    }
    proof {
        assert(src@.take(src@.len() as int) =~= src@);
    }
}

/// Append the byte-string encoding of `s`: decimal length, `:`, bytes.
fn push_str_encoding(s: &Vec<u8>, out: &mut Vec<u8>)
    ensures
        final(out)@ == old(out)@ + spec_str_encoding(s@),
{
    push_decimal(s.len() as u64, out);
    out.push(BYTE_COLON);
    push_bytes(s, out);
    proof {
        assert(old(out)@ + dec_digits(s@.len()) + seq![BYTE_COLON] + s@ =~= old(out)@
            + spec_str_encoding(s@));
    }
}

/// Append the canonical encoding of `v`.
#[verifier::loop_isolation(false)]
fn encode_value(v: &BencodeValue, out: &mut Vec<u8>)
    ensures
        final(out)@ == old(out)@ + spec_encode(v@),
    decreases v,
{
    match v {
        BencodeValue::Int(value) => {
            let value = *value;
            out.push(BYTE_INT);
            if value < 0 {
                out.push(BYTE_MINUS);
                let mag: u64 = ((-(value + 1)) as u64) + 1;
                push_decimal(mag, out);
                proof {
                    assert(mag as nat == (-(value as int)) as nat);
                    assert(old(out)@.push(BYTE_INT).push(BYTE_MINUS) + dec_digits(
                        (-(value as int)) as nat,
                    ) =~= old(out)@ + (seq![BYTE_INT] + spec_int_literal(value as int)));
                }
            } else {
                push_decimal(value as u64, out);
                proof {
                    assert(old(out)@.push(BYTE_INT) + dec_digits(value as nat) =~= old(out)@
                        + (seq![BYTE_INT] + spec_int_literal(value as int)));
                }
            }
            let ghost mid = out@;
            out.push(BYTE_END);
            proof {
                assert(mid.push(BYTE_END) =~= old(out)@ + spec_encode(v@));
            }
        },
        BencodeValue::Str(bytes) => {
            push_str_encoding(bytes, out);
        },
        BencodeValue::List(items) => {
            out.push(BYTE_LIST);
            proof {
                lemma_vals_view(items@);
            }
            let ghost vv = vals_view(items@);
            let ghost base = out@;
            let mut i: usize = 0;
            while i < items.len()
                invariant
                    0 <= i <= items@.len(),
                    vv == vals_view(items@),
                    vv.len() == items@.len(),
                    forall|j: int| 0 <= j < items@.len() ==> vv[j] == (#[trigger] items@[j])@,
                    base == old(out)@ + seq![BYTE_LIST],
                    base + spec_encode_items(vv, 0) == out@ + spec_encode_items(vv, i as int),
                decreases items@.len() - i,
            {
                let ghost before = out@;
                proof {
                    assert(decreases_to!(*v => v->List_0));
                    assert(decreases_to!(v->List_0 => v->List_0@));
                    assert(decreases_to!(v->List_0@ => v->List_0@[i as int]));
                    assert(decreases_to!(*v => items@[i as int]));
                }
                encode_value(&items[i], out);
                proof {
                    assert(spec_encode_items(vv, i as int) == spec_encode(vv[i as int])
                        + spec_encode_items(vv, i + 1));
                    assert(before + (spec_encode(vv[i as int]) + spec_encode_items(vv, i + 1))
                        =~= (before + spec_encode(vv[i as int])) + spec_encode_items(
                        vv,
                        i + 1,
                    ));
                    assert(base + spec_encode_items(vv, 0) == out@ + spec_encode_items(
                        vv,
                        i + 1,
                    ));
                }
                i = i + 1;
            }
            let ghost mid = out@;
            out.push(BYTE_END);
            proof {
                assert(mid + spec_encode_items(vv, items@.len() as int) =~= mid);
                assert(mid.push(BYTE_END) =~= old(out)@ + (seq![BYTE_LIST] + spec_encode_items(
                    vv,
                    0,
                ) + seq![BYTE_END]));
            }
        },
        BencodeValue::Dict(entries) => {
            out.push(BYTE_DICT);
            proof {
                lemma_entries_view(entries@);
            }
            let ghost ev = entries_view(entries@);
            let ghost base = out@;
            let mut i: usize = 0;
            while i < entries.len()
                invariant
                    0 <= i <= entries@.len(),
                    ev == entries_view(entries@),
                    ev.len() == entries@.len(),
                    forall|j: int| 0 <= j < entries@.len() ==> ev[j] == (
                    #[trigger] entries@[j])@,
                    base == old(out)@ + seq![BYTE_DICT],
                    base + spec_encode_entries(ev, 0) == out@ + spec_encode_entries(
                        ev,
                        i as int,
                    ),
                decreases entries@.len() - i,
            {
                let ghost before = out@;
                push_str_encoding(&entries[i].key, out);
                proof {
                    assert(decreases_to!(*v => v->Dict_0));
                    assert(decreases_to!(v->Dict_0 => v->Dict_0@));
                    assert(decreases_to!(v->Dict_0@ => v->Dict_0@[i as int]));
                    assert(decreases_to!(v->Dict_0@[i as int] => v->Dict_0@[i as int].value));
                    assert(decreases_to!(*v => entries@[i as int].value));
                }
                encode_value(&entries[i].value, out);
                proof {
                    assert(ev[i as int] == (entries@[i as int].key@, entries@[i as int].value@));
                    assert(spec_encode_entries(ev, i as int) == spec_str_encoding(
                        ev[i as int].0,
                    ) + spec_encode(ev[i as int].1) + spec_encode_entries(ev, i + 1));
                    assert(out@ =~= before + (spec_str_encoding(ev[i as int].0) + spec_encode(
                        ev[i as int].1,
                    )));
                    assert(before + (spec_str_encoding(ev[i as int].0) + spec_encode(
                        ev[i as int].1,
                    ) + spec_encode_entries(ev, i + 1)) =~= (before + (spec_str_encoding(
                        ev[i as int].0,
                    ) + spec_encode(ev[i as int].1))) + spec_encode_entries(ev, i + 1));
                    assert(spec_str_encoding(ev[i as int].0) + spec_encode(ev[i as int].1)
                        + spec_encode_entries(ev, i + 1) =~= spec_encode_entries(ev, i as int));
                    assert(base + spec_encode_entries(ev, 0) == out@ + spec_encode_entries(
                        ev,
                        i + 1,
                    ));
                }
                i = i + 1;
            }
            let ghost mid = out@;
            out.push(BYTE_END);
            proof {
                assert(mid + spec_encode_entries(ev, entries@.len() as int) =~= mid);
                assert(mid.push(BYTE_END) =~= old(out)@ + (seq![BYTE_DICT]
                    + spec_encode_entries(ev, 0) + seq![BYTE_END]));
            }
        },
    }
}

/// Serialize any value into its canonical bytes.  Infallible: the result
/// is always `Ok`.
pub fn encode_bencode(value: BencodeValue) -> (r: Result<Vec<u8>, &'static str>)
    ensures
        r is Ok,
        r->Ok_0@ == spec_encode(value@),
{
    let mut out: Vec<u8> = Vec::new();
    encode_value(&value, &mut out);
    proof {
        assert(Seq::<u8>::empty() + spec_encode(value@) =~= spec_encode(value@));
    }
    Ok(out)
}

/// Serialize an integer as `i<decimal>e`.
pub fn encode_integer(data: i64) -> (r: Result<Vec<u8>, &'static str>)
    ensures
        r is Ok,
        r->Ok_0@ == spec_encode(SpecValue::Int(data as int)),
{
    encode_bencode(BencodeValue::Int(data))
}

/// Serialize a byte string as `<decimal length>:<raw bytes>`.
pub fn encode_string(data: Vec<u8>) -> (r: Result<Vec<u8>, &'static str>)
    ensures
        r is Ok,
        r->Ok_0@ == spec_encode(SpecValue::Str(data@)),
{
    encode_bencode(BencodeValue::Str(data))
}

/// Serialize a list as `l<value>*e`, keeping the element order.
pub fn encode_list(data: Vec<BencodeValue>) -> (r: Result<Vec<u8>, &'static str>)
    ensures
        r is Ok,
        r->Ok_0@ == spec_encode(SpecValue::List(vals_view(data@))),
{
    encode_bencode(BencodeValue::List(data))
}

/// Serialize a dictionary as `d(<key><value>)*e`, emitting the entries in
/// their stored order; on a well-formed dictionary that order is strictly
/// ascending in the keys.
pub fn encode_dict(data: Vec<DictEntry>) -> (r: Result<Vec<u8>, &'static str>)
    ensures
        r is Ok,
        r->Ok_0@ == spec_encode(SpecValue::Dict(entries_view(data@))),
{
    encode_bencode(BencodeValue::Dict(data))
}

} // verus!
