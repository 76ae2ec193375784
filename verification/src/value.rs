//! The bencode value model.
//!
//! `BencodeValue` is the executable value tree: a closed sum type with the
//! four bencode kinds.  Its mathematical counterpart `SpecValue` models
//! integers as unbounded `int`, byte strings as `Seq<u8>`, lists as
//! sequences of values, and dictionaries as sequences of key/value pairs.
//! A value is well formed (`wf`) when every integer fits the wire width,
//! every byte string fits in memory, and every dictionary keeps its keys in
//! strictly ascending byte-lexicographic order.

use vstd::prelude::*;

use crate::order::lex_lt;

verus! {

/// Mathematical model of a bencode value.
pub enum SpecValue {
    /// A signed integer.
    Int(int),
    /// A raw byte string; never interpreted as text by this crate.
    Str(Seq<u8>),
    /// A dictionary as a sequence of key/value pairs.
    Dict(Seq<(Seq<u8>, SpecValue)>),
    /// An ordered, heterogeneous list of values.
    List(Seq<SpecValue>),
}

/// A decoded or to-be-encoded bencode value.
#[derive(Debug, PartialEq, Eq)]
pub enum BencodeValue {
    /// A signed 64-bit integer; literals outside this range are decode errors.
    Int(i64),
    /// A raw byte string with an explicit length, never null-terminated.
    Str(Vec<u8>),
    /// An ordered, heterogeneous list of values.
    List(Vec<BencodeValue>),
    /// A dictionary; entries are kept in ascending byte order of their keys.
    Dict(Vec<DictEntry>),
}

/// One dictionary entry: a raw byte-string key and its value.
#[derive(Debug, PartialEq, Eq)]
pub struct DictEntry {
    pub key: Vec<u8>,
    pub value: BencodeValue,
}

impl View for BencodeValue {
    type V = SpecValue;

    open spec fn view(&self) -> SpecValue
        decreases self, 0int,
    {
        match self {
            BencodeValue::Int(i) => SpecValue::Int(*i as int),
            BencodeValue::Str(s) => SpecValue::Str(s@),
            BencodeValue::List(items) => SpecValue::List(vals_view(items@)),
            BencodeValue::Dict(entries) => SpecValue::Dict(entries_view(entries@)),
        }
    }
}

impl View for DictEntry {
    type V = (Seq<u8>, SpecValue);

    open spec fn view(&self) -> (Seq<u8>, SpecValue) {
        (self.key@, self.value@)
    }
}

/// The views of the list elements from position `i` on.
pub open spec fn vals_view_from(items: Seq<BencodeValue>, i: int) -> Seq<SpecValue>
    decreases items, items.len() - i,
{
    if i < 0 || i >= items.len() {
        Seq::empty()
    } else {
        seq![items[i]@] + vals_view_from(items, i + 1)
    }
}

/// The views of a sequence of list elements.
pub open spec fn vals_view(items: Seq<BencodeValue>) -> Seq<SpecValue>
    decreases items, items.len() + 1,
{
    vals_view_from(items, 0)
}

/// The views of the dictionary entries from position `i` on.
pub open spec fn entries_view_from(entries: Seq<DictEntry>, i: int) -> Seq<
    (Seq<u8>, SpecValue),
>
    decreases entries, entries.len() - i,
{
    if i < 0 || i >= entries.len() {
        Seq::empty()
    } else {
        seq![(entries[i].key@, entries[i].value@)] + entries_view_from(entries, i + 1)
    }
}

/// The views of a sequence of dictionary entries.
pub open spec fn entries_view(entries: Seq<DictEntry>) -> Seq<(Seq<u8>, SpecValue)>
    decreases entries, entries.len() + 1,
{
    entries_view_from(entries, 0)
}

/// `vals_view` maps each element to its view, position by position.
pub proof fn lemma_vals_view_from(items: Seq<BencodeValue>, i: int)
    requires
        0 <= i <= items.len(),
    ensures
        vals_view_from(items, i).len() == items.len() - i,
        forall|j: int|
            i <= j < items.len() ==> vals_view_from(items, i)[j - i] == (
            #[trigger] items[j])@,
    decreases items.len() - i,
{
    if i < items.len() {
        lemma_vals_view_from(items, i + 1);
        let head = seq![items[i]@];
        let tail = vals_view_from(items, i + 1);
        assert(vals_view_from(items, i) == head + tail);
        assert forall|j: int| i <= j < items.len() implies vals_view_from(items, i)[j - i]
            == (#[trigger] items[j])@ by {
            if j == i {
                assert((head + tail)[0] == head[0]);
            } else {
                assert((head + tail)[j - i] == tail[j - i - 1]);
            }
        }
    }
}

/// `vals_view` keeps length and maps positions to element views.
pub proof fn lemma_vals_view(items: Seq<BencodeValue>)
    ensures
        vals_view(items).len() == items.len(),
        forall|j: int|
            0 <= j < items.len() ==> vals_view(items)[j] == (#[trigger] items[j])@,
{
    lemma_vals_view_from(items, 0);
}

/// `entries_view` maps each entry to its view, position by position.
pub proof fn lemma_entries_view_from(entries: Seq<DictEntry>, i: int)
    requires
        0 <= i <= entries.len(),
    ensures
        entries_view_from(entries, i).len() == entries.len() - i,
        forall|j: int|
            i <= j < entries.len() ==> entries_view_from(entries, i)[j - i] == (
            #[trigger] entries[j])@,
    decreases entries.len() - i,
{
    if i < entries.len() {
        lemma_entries_view_from(entries, i + 1);
        let head = seq![(entries[i].key@, entries[i].value@)];
        let tail = entries_view_from(entries, i + 1);
        assert(entries_view_from(entries, i) == head + tail);
        assert forall|j: int| i <= j < entries.len() implies entries_view_from(entries, i)[j
            - i] == (#[trigger] entries[j])@ by {
            if j == i {
                assert((head + tail)[0] == head[0]);
            } else {
                assert((head + tail)[j - i] == tail[j - i - 1]);
            }
        }
    }
}

/// `entries_view` keeps length and maps positions to entry views.
pub proof fn lemma_entries_view(entries: Seq<DictEntry>)
    ensures
        entries_view(entries).len() == entries.len(),
        forall|j: int|
            0 <= j < entries.len() ==> entries_view(entries)[j] == (
            #[trigger] entries[j])@,
{
    lemma_entries_view_from(entries, 0);
}

/// The keys of a dictionary are strictly ascending (hence unique) in
/// byte-lexicographic order.
pub open spec fn entries_sorted(entries: Seq<(Seq<u8>, SpecValue)>) -> bool {
    forall|i: int| 0 <= i && i + 1 < entries.len() ==> lex_lt(
        (#[trigger] entries[i]).0,
        entries[i + 1].0,
    )
}

/// Every entry has a key that fits in memory and a well-formed value.
pub open spec fn wf_entries(entries: Seq<(Seq<u8>, SpecValue)>) -> bool
    decreases entries, 0int,
{
    forall|i: int|
        0 <= i < entries.len() ==> (#[trigger] entries[i]).0.len() <= usize::MAX && wf(
            entries[i].1,
        )
}

/// Well-formedness of a value: integers fit the 64-bit wire width, byte
/// strings and keys fit in memory, and dictionary keys ascend strictly.
pub open spec fn wf(v: SpecValue) -> bool
    decreases v, 1int,
{
    match v {
        SpecValue::Int(i) => i64::MIN <= i <= i64::MAX,
        SpecValue::Str(s) => s.len() <= usize::MAX,
        SpecValue::List(items) => forall|i: int|
            0 <= i < items.len() ==> wf(#[trigger] items[i]),
        SpecValue::Dict(entries) => wf_entries(entries) && entries_sorted(entries),
    }
}

/// The position where `key` belongs in `entries`: the first position at or
/// after `i` whose key is not strictly below `key`, or the length if every
/// key is below it.
pub open spec fn insert_pos(entries: Seq<(Seq<u8>, SpecValue)>, key: Seq<u8>, i: int) -> int
    decreases entries.len() - i,
{
    if i < 0 || i >= entries.len() {
        entries.len() as int
    } else if lex_lt(entries[i].0, key) {
        insert_pos(entries, key, i + 1)
    } else {
        i
    }
}

/// Insert `key` with `value` into a key-sorted entry sequence: an entry
/// with an equal key is overwritten in place, otherwise the new entry goes
/// in at the position that keeps the keys ascending.
pub open spec fn spec_entries_insert(
    entries: Seq<(Seq<u8>, SpecValue)>,
    key: Seq<u8>,
    value: SpecValue,
) -> Seq<(Seq<u8>, SpecValue)> {
    let p = insert_pos(entries, key, 0);
    if p < entries.len() && entries[p].0 == key {
        entries.update(p, (key, value))
    } else {
        entries.insert(p, (key, value))
    }
}

/// What the insertion position says of the keys around it.
pub proof fn lemma_insert_pos_props(entries: Seq<(Seq<u8>, SpecValue)>, key: Seq<u8>, i: int)
    requires
        0 <= i <= entries.len(),
    ensures
        i <= insert_pos(entries, key, i) <= entries.len(),
        forall|j: int|
            i <= j < insert_pos(entries, key, i) ==> lex_lt((#[trigger] entries[j]).0, key),
        insert_pos(entries, key, i) < entries.len() ==> !lex_lt(
            entries[insert_pos(entries, key, i)].0,
            key,
        ),
    decreases entries.len() - i,
{
    if i < entries.len() && lex_lt(entries[i].0, key) {
        lemma_insert_pos_props(entries, key, i + 1);
    }
}

/// Inserting keeps the dictionary keys strictly ascending.
pub proof fn lemma_entries_insert_sorted(
    entries: Seq<(Seq<u8>, SpecValue)>,
    key: Seq<u8>,
    value: SpecValue,
)
    requires
        entries_sorted(entries),
    ensures
        entries_sorted(spec_entries_insert(entries, key, value)),
{
    lemma_insert_pos_props(entries, key, 0);
    let p = insert_pos(entries, key, 0);
    if p < entries.len() && entries[p].0 == key {
        let updated = entries.update(p, (key, value));
        assert forall|i: int| 0 <= i && i + 1 < updated.len() implies lex_lt(
            (#[trigger] updated[i]).0,
            updated[i + 1].0,
        ) by {
            assert(updated[i].0 == entries[i].0);
            assert(updated[i + 1].0 == entries[i + 1].0);
        }
    } else {
        let inserted = entries.insert(p, (key, value));
        entries.insert_ensures(p, (key, value));
        if p < entries.len() {
            crate::order::lemma_lex_lt_total(key, entries[p].0);
        }
        assert forall|i: int| 0 <= i && i + 1 < inserted.len() implies lex_lt(
            (#[trigger] inserted[i]).0,
            inserted[i + 1].0,
        ) by {
            if i + 1 < p {
                assert(inserted[i] == entries[i]);
                assert(inserted[i + 1] == entries[i + 1]);
            } else if i + 1 == p {
                assert(inserted[i] == entries[i]);
                assert(inserted[p] == (key, value));
            } else if i == p {
                assert(inserted[i] == (key, value));
                assert(inserted[i + 1] == entries[i]);
            } else {
                assert(inserted[i] == entries[i - 1]);
                assert(inserted[i + 1] == entries[i]);
            }
        }
    }
}

/// Inserting a well-formed entry keeps every entry well formed.
pub proof fn lemma_entries_insert_wf(
    entries: Seq<(Seq<u8>, SpecValue)>,
    key: Seq<u8>,
    value: SpecValue,
)
    requires
        wf_entries(entries),
        key.len() <= usize::MAX,
        wf(value),
    ensures
        wf_entries(spec_entries_insert(entries, key, value)),
{
    lemma_insert_pos_props(entries, key, 0);
    let p = insert_pos(entries, key, 0);
    if p < entries.len() && entries[p].0 == key {
        let updated = entries.update(p, (key, value));
        assert forall|i: int| 0 <= i < updated.len() implies (
        #[trigger] updated[i]).0.len() <= usize::MAX && wf(updated[i].1) by {
            if i != p {
                assert(updated[i] == entries[i]);
            }
        }
    } else {
        let inserted = entries.insert(p, (key, value));
        entries.insert_ensures(p, (key, value));
        assert forall|i: int| 0 <= i < inserted.len() implies (
        #[trigger] inserted[i]).0.len() <= usize::MAX && wf(inserted[i].1) by {
            if i < p {
                assert(inserted[i] == entries[i]);
            } else if i > p {
                assert(inserted[i] == entries[i - 1]);
            }
        }
    }
}

/// In a sorted entry sequence every key is strictly below every later
/// key, not only its neighbour.
pub proof fn lemma_entries_sorted_pairwise(entries: Seq<(Seq<u8>, SpecValue)>)
    requires
        entries_sorted(entries),
    ensures
        forall|i: int, j: int|
            0 <= i < j < entries.len() ==> lex_lt(
                (#[trigger] entries[i]).0,
                (#[trigger] entries[j]).0,
            ),
{
    assert forall|i: int, j: int| 0 <= i < j < entries.len() implies lex_lt(
        (#[trigger] entries[i]).0,
        (#[trigger] entries[j]).0,
    ) by {
        lemma_entries_sorted_reach(entries, i, j);
    }
}

proof fn lemma_entries_sorted_reach(entries: Seq<(Seq<u8>, SpecValue)>, i: int, j: int)
    requires
        entries_sorted(entries),
        0 <= i < j < entries.len(),
    ensures
        lex_lt(entries[i].0, entries[j].0),
    decreases j - i,
{
    if i + 1 == j {
    } else {
        lemma_entries_sorted_reach(entries, i + 1, j);
        crate::order::lemma_lex_lt_trans(entries[i].0, entries[i + 1].0, entries[j].0);
    }
}

/// The insertion position is exactly `p` when every key before `p` is
/// strictly below the new key and the key at `p`, if any, is not.
pub proof fn lemma_insert_pos_exact(entries: Seq<(Seq<u8>, SpecValue)>, key: Seq<u8>, p: int)
    requires
        0 <= p <= entries.len(),
        forall|j: int| 0 <= j < p ==> lex_lt((#[trigger] entries[j]).0, key),
        p < entries.len() ==> !lex_lt(entries[p].0, key),
    ensures
        insert_pos(entries, key, 0) == p,
{
    lemma_insert_pos_exact_from(entries, key, 0, p);
}

proof fn lemma_insert_pos_exact_from(
    entries: Seq<(Seq<u8>, SpecValue)>,
    key: Seq<u8>,
    i: int,
    p: int,
)
    requires
        0 <= i <= p <= entries.len(),
        forall|j: int| i <= j < p ==> lex_lt((#[trigger] entries[j]).0, key),
        p < entries.len() ==> !lex_lt(entries[p].0, key),
    ensures
        insert_pos(entries, key, i) == p,
    decreases p - i,
{
    if i < p {
        lemma_insert_pos_exact_from(entries, key, i + 1, p);
    }
}

/// Inserting a key strictly above every present key appends the entry.
pub proof fn lemma_entries_insert_append(
    entries: Seq<(Seq<u8>, SpecValue)>,
    key: Seq<u8>,
    value: SpecValue,
)
    requires
        forall|j: int| 0 <= j < entries.len() ==> lex_lt((#[trigger] entries[j]).0, key),
    ensures
        spec_entries_insert(entries, key, value) == entries.push((key, value)),
{
    lemma_insert_pos_props(entries, key, 0);
    let p = insert_pos(entries, key, 0);
    assert(p == entries.len());
    entries.insert_ensures(p, (key, value));
    assert(entries.insert(p, (key, value)) =~= entries.push((key, value)));
}

/// Taking views commutes with appending a list element.
pub proof fn lemma_vals_view_push(s: Seq<BencodeValue>, v: BencodeValue)
    ensures
        vals_view(s.push(v)) == vals_view(s).push(v@),
{
    lemma_vals_view(s.push(v));
    lemma_vals_view(s);
    let lhs = vals_view(s.push(v));
    let rhs = vals_view(s).push(v@);
    assert forall|j: int| 0 <= j < lhs.len() implies lhs[j] == rhs[j] by {
        if j < s.len() {
            assert(s.push(v)[j] == s[j]);
            assert(lhs[j] == s[j]@);
            assert(rhs[j] == vals_view(s)[j]);
        } else {
            assert(s.push(v)[j] == v);
        }
    }
    assert(lhs =~= rhs);
}

/// Taking views commutes with appending an entry.
pub proof fn lemma_entries_view_push(s: Seq<DictEntry>, e: DictEntry)
    ensures
        entries_view(s.push(e)) == entries_view(s).push((e.key@, e.value@)),
{
    lemma_entries_view(s.push(e));
    lemma_entries_view(s);
    let lhs = entries_view(s.push(e));
    let rhs = entries_view(s).push((e.key@, e.value@));
    assert forall|j: int| 0 <= j < lhs.len() implies lhs[j] == rhs[j] by {
        if j < s.len() {
            assert(s.push(e)[j] == s[j]);
            assert(lhs[j] == s[j]@);
            assert(rhs[j] == entries_view(s)[j]);
        } else {
            assert(s.push(e)[j] == e);
        }
    }
    assert(lhs =~= rhs);
}

/// Taking views commutes with inserting an entry at a position.
pub proof fn lemma_entries_view_insert(s: Seq<DictEntry>, i: int, e: DictEntry)
    requires
        0 <= i <= s.len(),
    ensures
        entries_view(s.insert(i, e)) == entries_view(s).insert(i, (e.key@, e.value@)),
{
    lemma_entries_view(s.insert(i, e));
    lemma_entries_view(s);
    s.insert_ensures(i, e);
    entries_view(s).insert_ensures(i, (e.key@, e.value@));
    let lhs = entries_view(s.insert(i, e));
    let rhs = entries_view(s).insert(i, (e.key@, e.value@));
    assert forall|j: int| 0 <= j < lhs.len() implies lhs[j] == rhs[j] by {
        if j < i {
            assert(s.insert(i, e)[j] == s[j]);
            assert(lhs[j] == s[j]@);
            assert(rhs[j] == entries_view(s)[j]);
        } else if j == i {
            assert(s.insert(i, e)[j] == e);
            assert(rhs[j] == (e.key@, e.value@));
        } else {
            assert(s.insert(i, e)[j] == s[j - 1]);
            assert(lhs[j] == s[j - 1]@);
            assert(rhs[j] == entries_view(s)[j - 1]);
        }
    }
    assert(lhs =~= rhs);
}

/// Taking views commutes with overwriting an entry in place.
pub proof fn lemma_entries_view_update(s: Seq<DictEntry>, i: int, e: DictEntry)
    requires
        0 <= i < s.len(),
    ensures
        entries_view(s.update(i, e)) == entries_view(s).update(i, (e.key@, e.value@)),
{
    lemma_entries_view(s.update(i, e));
    lemma_entries_view(s);
    let lhs = entries_view(s.update(i, e));
    let rhs = entries_view(s).update(i, (e.key@, e.value@));
    assert forall|j: int| 0 <= j < lhs.len() implies lhs[j] == rhs[j] by {
        if j == i {
            assert(s.update(i, e)[j] == e);
        } else {
            assert(s.update(i, e)[j] == s[j]);
            assert(lhs[j] == s[j]@);
            assert(rhs[j] == entries_view(s)[j]);
        }
    }
    assert(lhs =~= rhs);
}

/// Insert `key` with `value` into a key-sorted dictionary, keeping the
/// keys strictly ascending: an entry with an equal key is overwritten
/// (last write wins), any other entry goes in at its ordered position.
#[verifier::loop_isolation(false)]
pub fn dict_insert(entries: &mut Vec<DictEntry>, key: Vec<u8>, value: BencodeValue)
    ensures
        entries_view(final(entries)@) == spec_entries_insert(
            entries_view(old(entries)@),
            key@,
            value@,
        ),
        entries_sorted(entries_view(old(entries)@)) ==> entries_sorted(
            entries_view(final(entries)@),
        ),
{
    let ghost ev0 = entries_view(old(entries)@);
    proof {
        lemma_entries_view(old(entries)@);
        if entries_sorted(ev0) {
            lemma_entries_insert_sorted(ev0, key@, value@);
        }
    }
    let mut i: usize = 0;
    loop
        invariant
            0 <= i <= entries@.len(),
            entries@ == old(entries)@,
            forall|j: int| 0 <= j < i ==> lex_lt((#[trigger] entries@[j]).key@, key@),
        decreases entries@.len() - i,
    {
        if i == entries.len() {
            proof {
                assert forall|j: int| 0 <= j < ev0.len() implies lex_lt(
                    (#[trigger] ev0[j]).0,
                    key@,
                ) by {
                    assert(ev0[j] == (old(entries)@[j])@);
                }
                lemma_entries_insert_append(ev0, key@, value@);
            }
            let ghost before = entries@;
            entries.push(DictEntry { key, value });
            proof {
                lemma_entries_view_push(before, DictEntry { key: key, value: value });
            }
            return ;
        }
        let cmp = crate::order::key_compare(&entries[i].key, &key);
        match cmp {
            crate::order::KeyOrder::Less => {
                i = i + 1;
            },
            crate::order::KeyOrder::Equal => {
                proof {
                    crate::order::lemma_lex_lt_irrefl(key@);
                    assert forall|j: int| 0 <= j < i implies lex_lt(
                        (#[trigger] ev0[j]).0,
                        key@,
                    ) by {
                        assert(ev0[j] == (old(entries)@[j])@);
                    }
                    assert(ev0[i as int] == (old(entries)@[i as int])@);
                    lemma_insert_pos_exact(ev0, key@, i as int);
                }
                let ghost before = entries@;
                entries.remove(i);
                entries.insert(i, DictEntry { key, value });
                proof {
                    let e = DictEntry { key: key, value: value };
                    lemma_entries_view_update(before, i as int, e);
                    assert(before.remove(i as int).insert(i as int, e) =~= before.update(
                        i as int,
                        e,
                    )) by {
                        before.insert_ensures(i as int, e);
                        before.remove(i as int).insert_ensures(i as int, e);
                    }
                }
                return ;
            },
            crate::order::KeyOrder::Greater => {
                proof {
                    crate::order::lemma_lex_lt_asym(key@, entries@[i as int].key@);
                    assert forall|j: int| 0 <= j < i implies lex_lt(
                        (#[trigger] ev0[j]).0,
                        key@,
                    ) by {
                        assert(ev0[j] == (old(entries)@[j])@);
                    }
                    assert(ev0[i as int] == (old(entries)@[i as int])@);
                    lemma_insert_pos_exact(ev0, key@, i as int);
                }
                let ghost before = entries@;
                entries.insert(i, DictEntry { key, value });
                proof {
                    lemma_entries_view_insert(before, i as int, DictEntry { key: key, value: value });
                }
                return ;
            },
        }
    }
}

} // verus!
