//! The round-trip laws of the codec.
//!
//! For every well-formed value `v` and any trailing bytes, decoding
//! `spec_encode(v) + extra` yields exactly `(v, extra)`: the decoder
//! consumes precisely the canonical encoding and hands the rest back
//! untouched.  Two corollaries follow: decoding a lone encoding leaves an
//! empty remainder, and re-encoding a decoded value reproduces the
//! canonical input bytes.

use vstd::prelude::*;

use crate::digits::dec_digits;
use crate::digits::is_digit;
use crate::digits::lemma_dec_digits_shape;
use crate::digits::lemma_digits_val_dec_digits;
use crate::digits::lemma_spec_find_found;
use crate::order::lex_lt;
use crate::value::entries_sorted;
use crate::value::lemma_entries_insert_append;
use crate::value::lemma_entries_sorted_pairwise;
use crate::value::wf;
use crate::value::wf_entries;
use crate::value::SpecValue;
use crate::wire::spec_decode;
use crate::wire::spec_decode_entries;
use crate::wire::spec_decode_integer;
use crate::wire::spec_decode_items;
use crate::wire::spec_decode_string;
use crate::wire::spec_encode;
use crate::wire::spec_encode_entries;
use crate::wire::spec_encode_items;
use crate::wire::spec_int_literal;
use crate::wire::spec_parse_int_literal;
use crate::wire::spec_str_encoding;
use crate::wire::DecodeError;
use crate::wire::BYTE_COLON;
use crate::wire::BYTE_DICT;
use crate::wire::BYTE_END;
use crate::wire::BYTE_INT;
use crate::wire::BYTE_LIST;
use crate::wire::BYTE_MINUS;

verus! {

/// The first byte of an encoding names the value's kind, so it is never
/// the terminator `e`.
proof fn lemma_encode_head(v: SpecValue)
    ensures
        spec_encode(v).len() >= 1,
        v is Int ==> spec_encode(v)[0] == BYTE_INT,
        v is Str ==> is_digit(spec_encode(v)[0]),
        v is List ==> spec_encode(v)[0] == BYTE_LIST,
        v is Dict ==> spec_encode(v)[0] == BYTE_DICT,
        spec_encode(v)[0] != BYTE_END,
{
    let enc = spec_encode(v);
    match v {
        SpecValue::Int(i) => {
            let head = seq![BYTE_INT] + spec_int_literal(i);
            assert(enc == head + seq![BYTE_END]);
            assert(enc[0] == head[0]);
            assert(head[0] == seq![BYTE_INT][0]);
        },
        SpecValue::Str(s) => {
            lemma_dec_digits_shape(s.len());
            let d = dec_digits(s.len());
            let head = d + seq![BYTE_COLON];
            assert(enc == head + s);
            assert(enc[0] == head[0]);
            assert(head[0] == d[0]);
        },
        SpecValue::List(items) => {
            let head = seq![BYTE_LIST] + spec_encode_items(items, 0);
            assert(enc == head + seq![BYTE_END]);
            assert(enc[0] == head[0]);
            assert(head[0] == seq![BYTE_LIST][0]);
        },
        SpecValue::Dict(entries) => {
            let head = seq![BYTE_DICT] + spec_encode_entries(entries, 0);
            assert(enc == head + seq![BYTE_END]);
            assert(enc[0] == head[0]);
            assert(head[0] == seq![BYTE_DICT][0]);
        },
    }
}

/// The canonical literal of an in-range integer is read back as exactly
/// that integer, and holds no terminator byte.
proof fn lemma_int_literal_shape(i: int)
    requires
        i64::MIN <= i <= i64::MAX,
    ensures
        spec_int_literal(i).len() >= 1,
        forall|j: int|
            0 <= j < spec_int_literal(i).len() ==> #[trigger] spec_int_literal(i)[j]
                != BYTE_END,
        spec_parse_int_literal(spec_int_literal(i)) == Ok::<int, DecodeError>(i),
{
    let lit = spec_int_literal(i);
    if i < 0 {
        let d = dec_digits((-i) as nat);
        lemma_dec_digits_shape((-i) as nat);
        lemma_digits_val_dec_digits((-i) as nat);
        assert(lit == seq![BYTE_MINUS] + d);
        assert(lit[0] == seq![BYTE_MINUS][0]);
        assert forall|j: int| 0 <= j < lit.len() implies #[trigger] lit[j] != BYTE_END by {
            if j > 0 {
                assert(lit[j] == d[j - 1]);
                assert(is_digit(d[j - 1]));
            }
        }
        assert(lit.skip(1) =~= d);
        let digs = lit.skip(1);
        assert(digs[0] == d[0]);
        assert(d[0] != 48);
        assert(spec_parse_int_literal(lit) == Ok::<int, DecodeError>(i));
    } else {
        let d = dec_digits(i as nat);
        lemma_dec_digits_shape(i as nat);
        lemma_digits_val_dec_digits(i as nat);
        assert(lit == d);
        assert(is_digit(lit[0]));
        assert(lit[0] != BYTE_MINUS);
        assert forall|j: int| 0 <= j < lit.len() implies #[trigger] lit[j] != BYTE_END by {
            assert(is_digit(d[j]));
        }
        if lit.len() > 1 {
            assert(lit[0] != 48);
        }
        assert(spec_parse_int_literal(lit) == Ok::<int, DecodeError>(i));
    }
}

/// Decoding an encoded integer consumes exactly the encoding.
proof fn lemma_decode_integer_of_encoded(i: int, tail: Seq<u8>)
    requires
        i64::MIN <= i <= i64::MAX,
    ensures
        spec_decode(spec_encode(SpecValue::Int(i)) + tail) == Ok::<
            (SpecValue, Seq<u8>),
            DecodeError,
        >((SpecValue::Int(i), tail)),
{
    let lit = spec_int_literal(i);
    lemma_int_literal_shape(i);
    let enc = spec_encode(SpecValue::Int(i));
    let s = enc + tail;
    let n1 = lit.len() as int;
    assert(enc == seq![BYTE_INT] + lit + seq![BYTE_END]);
    assert(s.len() == n1 + 2 + tail.len());
    assert(s[0] == BYTE_INT) by {
        assert(s[0] == enc[0]);
        assert(enc[0] == (seq![BYTE_INT] + lit)[0]);
        assert((seq![BYTE_INT] + lit)[0] == seq![BYTE_INT][0]);
    }
    assert forall|j: int| 1 <= j < n1 + 1 implies s[j] == lit[j - 1] by {
        assert(s[j] == enc[j]);
        assert(enc[j] == (seq![BYTE_INT] + lit)[j]);
        assert((seq![BYTE_INT] + lit)[j] == lit[j - 1]);
    }
    assert(s[n1 + 1] == BYTE_END) by {
        assert(s[n1 + 1] == enc[n1 + 1]);
        assert(enc[n1 + 1] == seq![BYTE_END][0]);
    }
    assert(!is_digit(s[0]));
    lemma_spec_find_found(s, BYTE_END, 1, n1 + 1);
    assert(s.subrange(1, n1 + 1) =~= lit);
    assert(s.skip(n1 + 2) =~= tail);
    assert(spec_decode_integer(s) == Ok::<(int, Seq<u8>), DecodeError>((i, tail)));
}

/// Decoding an encoded byte string consumes exactly the encoding.
proof fn lemma_decode_string_of_encoded(k: Seq<u8>, tail: Seq<u8>)
    requires
        k.len() <= usize::MAX,
    ensures
        spec_decode(spec_str_encoding(k) + tail) == Ok::<(SpecValue, Seq<u8>), DecodeError>(
            (SpecValue::Str(k), tail),
        ),
{
    let d = dec_digits(k.len());
    lemma_dec_digits_shape(k.len());
    lemma_digits_val_dec_digits(k.len());
    let enc = spec_str_encoding(k);
    let s = enc + tail;
    let nd = d.len() as int;
    assert(enc == d + seq![BYTE_COLON] + k);
    assert(s.len() == nd + 1 + k.len() + tail.len());
    assert forall|j: int| 0 <= j < nd implies s[j] == d[j] by {
        assert(s[j] == enc[j]);
        assert(enc[j] == (d + seq![BYTE_COLON])[j]);
        assert((d + seq![BYTE_COLON])[j] == d[j]);
    }
    assert(s[nd] == BYTE_COLON) by {
        assert(s[nd] == enc[nd]);
        assert(enc[nd] == (d + seq![BYTE_COLON])[nd]);
        assert((d + seq![BYTE_COLON])[nd] == seq![BYTE_COLON][0]);
    }
    assert(is_digit(s[0]));
    assert forall|j: int| 0 <= j < nd implies s[j] != BYTE_COLON by {
        assert(is_digit(d[j]));
    }
    lemma_spec_find_found(s, BYTE_COLON, 0, nd);
    assert(s.take(nd) =~= d);
    assert(s.subrange(nd + 1, nd + 1 + k.len() as int) =~= k);
    assert(s.skip(nd + 1 + k.len() as int) =~= tail);
    assert(spec_decode_string(s) == Ok::<(Seq<u8>, Seq<u8>), DecodeError>((k, tail)));
}

proof fn lemma_rt_value(v: SpecValue, tail: Seq<u8>)
    requires
        wf(v),
    ensures
        spec_decode(spec_encode(v) + tail) == Ok::<(SpecValue, Seq<u8>), DecodeError>(
            (v, tail),
        ),
    decreases v, 0int,
{
    match v {
        SpecValue::Int(i) => {
            lemma_decode_integer_of_encoded(i, tail);
        },
        SpecValue::Str(bytes) => {
            lemma_decode_string_of_encoded(bytes, tail);
        },
        SpecValue::List(items) => {
            let s = spec_encode(v) + tail;
            let inner = spec_encode_items(items, 0) + seq![BYTE_END] + tail;
            assert(spec_encode(v) == seq![BYTE_LIST] + spec_encode_items(items, 0) + seq![
                BYTE_END,
            ]);
            lemma_encode_head(v);
            assert(s[0] == spec_encode(v)[0]);
            assert(s.skip(1) =~= inner);
            assert(forall|j: int| 0 <= j < items.len() ==> wf(#[trigger] items[j]));
            lemma_rt_items(items, 0, tail);
            assert(items.skip(0) =~= items);
            assert(!is_digit(BYTE_LIST));
        },
        SpecValue::Dict(entries) => {
            let s = spec_encode(v) + tail;
            let inner = spec_encode_entries(entries, 0) + seq![BYTE_END] + tail;
            assert(spec_encode(v) == seq![BYTE_DICT] + spec_encode_entries(entries, 0) + seq![
                BYTE_END,
            ]);
            lemma_encode_head(v);
            assert(s[0] == spec_encode(v)[0]);
            assert(s.skip(1) =~= inner);
            lemma_rt_entries(entries, 0, tail);
            assert(entries.take(0) =~= Seq::<(Seq<u8>, SpecValue)>::empty());
            assert(!is_digit(BYTE_DICT));
        },
    }
}

proof fn lemma_rt_items(items: Seq<SpecValue>, i: int, tail: Seq<u8>)
    requires
        0 <= i <= items.len(),
        forall|j: int| 0 <= j < items.len() ==> wf(#[trigger] items[j]),
    ensures
        spec_decode_items(spec_encode_items(items, i) + seq![BYTE_END] + tail) == Ok::<
            (Seq<SpecValue>, Seq<u8>),
            DecodeError,
        >((items.skip(i), tail)),
    decreases items, items.len() - i,
{
    let s = spec_encode_items(items, i) + seq![BYTE_END] + tail;
    if i == items.len() {
        assert(spec_encode_items(items, i) == Seq::<u8>::empty());
        assert(s.len() == 1 + tail.len());
        assert(s[0] == BYTE_END) by {
            assert(s[0] == (Seq::<u8>::empty() + seq![BYTE_END])[0]);
            assert((Seq::<u8>::empty() + seq![BYTE_END])[0] == seq![BYTE_END][0]);
        }
        assert(s.skip(1) =~= tail);
        assert(items.skip(i) =~= Seq::<SpecValue>::empty());
    } else {
        let head = spec_encode(items[i]);
        let rest1 = spec_encode_items(items, i + 1) + seq![BYTE_END] + tail;
        assert(spec_encode_items(items, i) == head + spec_encode_items(items, i + 1));
        assert(s =~= head + rest1);
        lemma_encode_head(items[i]);
        assert(s[0] == head[0]) by {
            assert((head + rest1)[0] == head[0]);
        }
        lemma_rt_value(items[i], rest1);
        assert(rest1.len() < s.len());
        lemma_rt_items(items, i + 1, tail);
        assert(seq![items[i]] + items.skip(i + 1) =~= items.skip(i));
    }
}

proof fn lemma_rt_entries(entries: Seq<(Seq<u8>, SpecValue)>, i: int, tail: Seq<u8>)
    requires
        0 <= i <= entries.len(),
        wf_entries(entries),
        entries_sorted(entries),
    ensures
        spec_decode_entries(
            spec_encode_entries(entries, i) + seq![BYTE_END] + tail,
            entries.take(i),
        ) == Ok::<(Seq<(Seq<u8>, SpecValue)>, Seq<u8>), DecodeError>((entries, tail)),
    decreases entries, entries.len() - i,
{
    let s = spec_encode_entries(entries, i) + seq![BYTE_END] + tail;
    if i == entries.len() {
        assert(spec_encode_entries(entries, i) == Seq::<u8>::empty());
        assert(s.len() == 1 + tail.len());
        assert(s[0] == BYTE_END) by {
            assert(s[0] == (Seq::<u8>::empty() + seq![BYTE_END])[0]);
            assert((Seq::<u8>::empty() + seq![BYTE_END])[0] == seq![BYTE_END][0]);
        }
        assert(s.skip(1) =~= tail);
        assert(entries.take(i) =~= entries);
    } else {
        let k = entries[i].0;
        let v = entries[i].1;
        assert(k.len() <= usize::MAX && wf(v)) by {
            assert((entries[i]).0.len() <= usize::MAX && wf(entries[i].1));
        }
        let keyenc = spec_str_encoding(k);
        let rest2 = spec_encode_entries(entries, i + 1) + seq![BYTE_END] + tail;
        let rest1 = spec_encode(v) + rest2;
        assert(spec_encode_entries(entries, i) == keyenc + spec_encode(v)
            + spec_encode_entries(entries, i + 1));
        assert(s =~= keyenc + rest1);
        lemma_decode_string_of_encoded(k, rest1);
        lemma_encode_head(SpecValue::Str(k));
        assert(spec_encode(SpecValue::Str(k)) == keyenc);
        assert(s[0] == keyenc[0]) by {
            assert((keyenc + rest1)[0] == keyenc[0]);
        }
        assert(s[0] != BYTE_END);
        assert(rest1.len() <= s.len());
        lemma_rt_value(v, rest2);
        assert(rest2.len() < s.len());
        lemma_entries_sorted_pairwise(entries);
        assert forall|j: int| 0 <= j < entries.take(i).len() implies lex_lt(
            (#[trigger] entries.take(i)[j]).0,
            k,
        ) by {
            assert(entries.take(i)[j] == entries[j]);
        }
        lemma_entries_insert_append(entries.take(i), k, v);
        assert(entries.take(i).push((k, v)) =~= entries.take(i + 1));
        lemma_rt_entries(entries, i + 1, tail);
    }
}

/// Round trip with a remainder: decoding the canonical encoding of a
/// well-formed value followed by any byte sequence yields exactly that
/// value and exactly those trailing bytes.
pub proof fn lemma_round_trip(v: SpecValue, extra: Seq<u8>)
    requires
        wf(v),
    ensures
        spec_decode(spec_encode(v) + extra) == Ok::<(SpecValue, Seq<u8>), DecodeError>(
            (v, extra),
        ),
{
    lemma_rt_value(v, extra);
}

/// Round trip of a lone value: decoding its canonical encoding yields the
/// value back with an empty remainder.
pub proof fn lemma_round_trip_exact(v: SpecValue)
    requires
        wf(v),
    ensures
        spec_decode(spec_encode(v)) == Ok::<(SpecValue, Seq<u8>), DecodeError>(
            (v, Seq::empty()),
        ),
{
    lemma_rt_value(v, Seq::empty());
    assert(spec_encode(v) + Seq::<u8>::empty() =~= spec_encode(v));
}

/// Canonical re-encoding: when an input begins with the canonical
/// encoding of a well-formed value, decoding succeeds and re-encoding the
/// decoded value, followed by the returned remainder, reproduces the
/// input bytes exactly.
pub proof fn lemma_canonical_reencode(b: Seq<u8>, v: SpecValue, extra: Seq<u8>)
    requires
        wf(v),
        b == spec_encode(v) + extra,
    ensures
        spec_decode(b) is Ok,
        spec_encode(spec_decode(b)->Ok_0.0) + spec_decode(b)->Ok_0.1 == b,
{
    lemma_rt_value(v, extra);
}

/// Remainder correctness on a concrete stream: decoding `i42e` followed
/// by any byte sequence yields the integer and exactly those bytes.
pub proof fn lemma_integer_remainder(extra: Seq<u8>)
    ensures
        spec_decode(seq![105u8, 52u8, 50u8, 101u8] + extra) == Ok::<
            (SpecValue, Seq<u8>),
            DecodeError,
        >((SpecValue::Int(42), extra)),
{
    reveal_with_fuel(dec_digits, 2);
    assert(dec_digits(42nat) =~= seq![52u8, 50u8]);
    assert(spec_encode(SpecValue::Int(42)) =~= seq![105u8, 52u8, 50u8, 101u8]);
    lemma_rt_value(SpecValue::Int(42), extra);
}

} // verus!
