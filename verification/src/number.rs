//! Integers in sign and magnitude form, and when they fit a machine word.

use vstd::bytes::{spec_u64_from_le_bytes, spec_u64_to_le_bytes, u64_from_le_bytes};
use vstd::prelude::*;

verus! {

/// The number of digits up to the last one that is not zero.
pub open spec fn significant_len(d: Seq<u8>) -> nat
    decreases d.len(),
{
    if d.len() == 0 {
        0
    } else if d.last() != 0 {
        d.len()
    } else {
        significant_len(d.drop_last())
    }
}

/// The first eight digits, with zero where there is no significant digit.
pub open spec fn word_digits(d: Seq<u8>) -> Seq<u8> {
    Seq::new(8, |i: int| if i < significant_len(d) { d[i] } else { 0u8 })
}

/// The magnitude of a number of at most eight significant digits.
pub open spec fn word_magnitude(d: Seq<u8>) -> u64 {
    spec_u64_from_le_bytes(word_digits(d))
}

/// Whether the number with this sign and these digits fits a signed 64-bit word.
pub open spec fn fits_word(negative: bool, d: Seq<u8>) -> bool {
    significant_len(d) <= 8 && word_magnitude(d) <= (if negative {
        9223372036854775808u64
    } else {
        9223372036854775807u64
    })
}

/// The signed word with the given sign and magnitude.
pub open spec fn signed_word(negative: bool, magnitude: u64) -> i64 {
    if negative {
        (0 - magnitude) as i64
    } else {
        magnitude as i64
    }
}

/// The magnitude of a signed word.
pub open spec fn magnitude_of(v: i64) -> u64 {
    if v < 0 {
        (0 - v) as u64
    } else {
        v as u64
    }
}

/// The digits beyond the significant length are zero, and the significant
/// length is within the length.
pub proof fn lemma_significant_len(d: Seq<u8>)
    ensures
        significant_len(d) <= d.len(),
        forall|i: int| significant_len(d) <= i < d.len() ==> d[i] == 0,
        significant_len(d) > 0 ==> d[significant_len(d) - 1] != 0,
    decreases d.len(),
{
    if d.len() > 0 && d.last() == 0 {
        let front = d.drop_last();
        lemma_significant_len(front);
        assert forall|i: int| significant_len(d) <= i < d.len() implies d[i] == 0 by {
            if i < front.len() {
                assert(front[i] == d[i]);
            }
        }
        if significant_len(d) > 0 {
            assert(front[significant_len(d) - 1] == d[significant_len(d) - 1]);
        }
    }
}

/// The magnitude of `v`.
pub fn magnitude(v: i64) -> (m: u64)
    ensures
        m == magnitude_of(v),
{
    if v >= 0 {
        v as u64
    } else {
        ((-(v + 1)) as u64) + 1
    }
}

/// The machine word that the digits stand for, if they stand for one.
pub fn to_word(negative: bool, digits: &Vec<u8>) -> (r: Option<i64>)
    ensures
        r.is_some() == fits_word(negative, digits@),
        r.is_some() ==> r.unwrap() == signed_word(negative, word_magnitude(digits@)),
{
    let mut n: usize = digits.len();
    assert(digits@.take(n as int) =~= digits@);
    while n > 0 && digits[n - 1] == 0
        invariant
            n <= digits.len(),
            significant_len(digits@) == significant_len(digits@.take(n as int)),
        decreases n,
    {
        assert(digits@.take(n as int).drop_last() =~= digits@.take(n as int - 1));
        n -= 1;
    }
    assert(significant_len(digits@) == n);
    if n > 8 {
        return None;
    }
    let mut word: Vec<u8> = Vec::new();
    let mut i: usize = 0;
    while i < 8
        invariant
            i <= 8,
            n <= 8,
            n <= digits.len(),
            n == significant_len(digits@),
            word@.len() == i,
            forall|j: int| 0 <= j < i ==> word@[j] == word_digits(digits@)[j],
        decreases 8 - i,
    {
        if i < n {
            word.push(digits[i]);
        } else {
            word.push(0u8);
        }
        i += 1;
    }
    assert(word@ =~= word_digits(digits@));
    let m: u64 = u64_from_le_bytes(word.as_slice());
    if negative {
        if m > 9223372036854775808u64 {
            None
        } else if m == 0 {
            Some(0i64)
        } else {
            Some(-((m - 1) as i64) - 1)
        }
    } else {
        if m > 9223372036854775807u64 {
            None
        } else {
            Some(m as i64)
        }
    }
}

/// The eight digits of a magnitude stand for the word they came from.
pub proof fn lemma_word_of_magnitude(v: i64)
    ensures
        fits_word(v < 0, spec_u64_to_le_bytes(magnitude_of(v))),
        signed_word(v < 0, word_magnitude(spec_u64_to_le_bytes(magnitude_of(v)))) == v,
        spec_u64_to_le_bytes(magnitude_of(v)).len() == 8,
{
    let m = magnitude_of(v);
    let d = spec_u64_to_le_bytes(m);
    vstd::bytes::lemma_auto_spec_u64_to_from_le_bytes();
    lemma_significant_len(d);
    assert(word_digits(d) =~= d);
}

} // verus!
