//! Decimal literals on the wire.
//!
//! Integer values and byte-string lengths travel as ASCII decimal literals.
//! `dec_digits` is the canonical digit string of a non-negative number (no
//! superfluous leading zero, `0` rendered as a single digit) and
//! `digits_val` reads a digit string back as a number.  The lemmas here
//! connect the two and bound how fast a literal grows, which is what the
//! overflow checks in the decoder rest on.  `spec_find` locates the first
//! occurrence of a terminator byte, as the decoder's scans do.

use vstd::prelude::*;

verus! {

/// `b` is an ASCII decimal digit.
pub open spec fn is_digit(b: u8) -> bool {
    48 <= b <= 57
}

/// Every byte of `s` is an ASCII decimal digit.
pub open spec fn all_digits(s: Seq<u8>) -> bool {
    forall|i: int| 0 <= i < s.len() ==> is_digit(#[trigger] s[i])
}

/// The canonical decimal digit string of `n`: most significant digit first,
/// no leading zero except for `n == 0` itself.
pub open spec fn dec_digits(n: nat) -> Seq<u8>
    decreases n,
{
    if n < 10 {
        seq![(n + 48) as u8]
    } else {
        dec_digits(n / 10).push((n % 10 + 48) as u8)
    }
}

/// The number a digit string denotes, most significant digit first.
pub open spec fn digits_val(s: Seq<u8>) -> int
    decreases s.len(),
{
    if s.len() == 0 {
        0
    } else {
        digits_val(s.take(s.len() - 1)) * 10 + (s[s.len() - 1] - 48)
    }
}

/// Shape of a canonical digit string: non-empty, all digits, and a leading
/// zero appears only for the number zero itself.
pub proof fn lemma_dec_digits_shape(n: nat)
    ensures
        dec_digits(n).len() >= 1,
        all_digits(dec_digits(n)),
        (dec_digits(n)[0] == 48) == (n == 0),
        n == 0 ==> dec_digits(n).len() == 1,
    decreases n,
{
    if n < 10 {
    } else {
        lemma_dec_digits_shape(n / 10);
        let prefix = dec_digits(n / 10);
        let whole = prefix.push((n % 10 + 48) as u8);
        assert(whole[0] == prefix[0]);
        assert(n / 10 > 0);
        assert forall|i: int| 0 <= i < whole.len() implies is_digit(#[trigger] whole[i]) by {
            if i < prefix.len() {
                assert(whole[i] == prefix[i]);
            }
        }
    }
}

/// Reading the canonical digit string of `n` gives back `n`.
pub proof fn lemma_digits_val_dec_digits(n: nat)
    ensures
        digits_val(dec_digits(n)) == n,
    decreases n,
{
    if n < 10 {
        let s = dec_digits(n);
        assert(s.take(0) =~= Seq::<u8>::empty());
        assert(digits_val(s) == digits_val(s.take(0)) * 10 + (s[0] - 48));
    } else {
        lemma_digits_val_dec_digits(n / 10);
        let prefix = dec_digits(n / 10);
        let whole = prefix.push((n % 10 + 48) as u8);
        assert(whole.take(whole.len() - 1) =~= prefix);
        assert(whole[whole.len() - 1] == (n % 10 + 48) as u8);
        assert(digits_val(whole) == digits_val(prefix) * 10 + n % 10);
        assert(n == (n / 10) * 10 + n % 10) by (nonlinear_arith);
    }
}

/// A digit string denotes a non-negative number.
pub proof fn lemma_digits_val_nonneg(s: Seq<u8>)
    requires
        all_digits(s),
    ensures
        digits_val(s) >= 0,
    decreases s.len(),
{
    if s.len() > 0 {
        let prefix = s.take(s.len() - 1);
        assert(all_digits(prefix)) by {
            assert(forall|i: int|
                0 <= i < prefix.len() ==> #[trigger] prefix[i] == s[i]);
        }
        lemma_digits_val_nonneg(prefix);
    }
}

/// Reading one more digit multiplies the value so far by ten and adds it.
pub proof fn lemma_digits_val_step(s: Seq<u8>, i: int)
    requires
        0 <= i < s.len(),
    ensures
        digits_val(s.take(i + 1)) == digits_val(s.take(i)) * 10 + (s[i] - 48),
{
    let longer = s.take(i + 1);
    assert(longer.take(i) =~= s.take(i));
    assert(longer[i] == s[i]);
}

/// Once a prefix of a digit string exceeds a bound, the whole string does:
/// appending digits never shrinks the value.
pub proof fn lemma_digits_val_prefix_exceeds(s: Seq<u8>, i: int, bound: int)
    requires
        all_digits(s),
        0 <= i <= s.len(),
        bound >= 0,
        digits_val(s.take(i)) > bound,
    ensures
        digits_val(s) > bound,
    decreases s.len() - i,
{
    if i == s.len() {
        assert(s.take(i) =~= s);
    } else {
        lemma_digits_val_step(s, i);
        assert(all_digits(s.take(i))) by {
            assert(forall|j: int|
                0 <= j < s.take(i).len() ==> #[trigger] s.take(i)[j] == s[j]);
        }
        lemma_digits_val_nonneg(s.take(i));
        assert(digits_val(s.take(i + 1)) > bound);
        lemma_digits_val_prefix_exceeds(s, i + 1, bound);
    }
}

/// The first occurrence of `b` in `s` at or after position `i`.
pub open spec fn spec_find(s: Seq<u8>, b: u8, i: int) -> Option<int>
    decreases s.len() - i,
{
    if i < 0 || i >= s.len() {
        None
    } else if s[i] == b {
        Some(i)
    } else {
        spec_find(s, b, i + 1)
    }
}

/// If `b` occurs first at position `j`, the scan finds exactly `j`.
pub proof fn lemma_spec_find_found(s: Seq<u8>, b: u8, from: int, j: int)
    requires
        0 <= from <= j < s.len(),
        s[j] == b,
        forall|k: int| from <= k < j ==> s[k] != b,
    ensures
        spec_find(s, b, from) == Some(j),
    decreases j - from,
{
    if from < j {
        lemma_spec_find_found(s, b, from + 1, j);
    }
}

/// If `b` occurs nowhere at or after `from`, the scan finds nothing.
pub proof fn lemma_spec_find_none(s: Seq<u8>, b: u8, from: int)
    requires
        0 <= from,
        forall|k: int| from <= k < s.len() ==> s[k] != b,
    ensures
        spec_find(s, b, from) is None,
    decreases s.len() - from,
{
    if from < s.len() {
        lemma_spec_find_none(s, b, from + 1);
    }
}

/// What a successful or failed scan says about the bytes of `s`.
pub proof fn lemma_spec_find_props(s: Seq<u8>, b: u8, from: int)
    requires
        0 <= from,
    ensures
        match spec_find(s, b, from) {
            Some(j) => from <= j < s.len() && s[j] == b && forall|k: int|
                from <= k < j ==> s[k] != b,
            None => forall|k: int| from <= k < s.len() ==> s[k] != b,
        },
    decreases s.len() - from,
{
    if from < s.len() && s[from] != b {
        lemma_spec_find_props(s, b, from + 1);
    }
}

/// Scan `data` for the first occurrence of `b` at or after `start`.
pub fn find_byte(data: &[u8], b: u8, start: usize) -> (r: Option<usize>)
    requires
        start <= data@.len(),
    ensures
        match r {
            Some(j) => spec_find(data@, b, start as int) == Some(j as int) && start <= j
                < data@.len(),
            None => spec_find(data@, b, start as int) is None,
        },
{
    let mut i: usize = start;
    while i < data.len()
        invariant
            start <= i <= data@.len(),
            forall|k: int| start <= k < i ==> data@[k] != b,
        decreases data@.len() - i,
    {
        if data[i] == b {
            proof {
                lemma_spec_find_found(data@, b, start as int, i as int);
            }
            return Some(i);
        }
        i = i + 1;
    }
    proof {
        lemma_spec_find_none(data@, b, start as int);
    }
    None
}

} // verus!
