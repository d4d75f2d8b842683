//! Reading whole numbers as `usize::from_str` and `u64::from_str` do, and the characters of a
//! string.

use vstd::prelude::*;

verus! {

/// The characters of `text`, one by one.
pub fn chars_of(text: &str) -> (chars: Vec<char>)
    ensures
        chars@ == text@,
{
    broadcast use vstd::string::group_string_axioms;

    let mut chars: Vec<char> = Vec::new();
    for c in it: text.chars()
        invariant
            chars@ == it.seq().take(it.index() as int),
    {
        chars.push(c);
    }
    chars
}


/// An ASCII decimal digit.
pub open spec fn is_digit(c: char) -> bool {
    '0' <= c <= '9'
}

/// The value of a run of decimal digits.
pub open spec fn digits_value(digits: Seq<char>) -> nat
    decreases digits.len(),
{
    if digits.len() == 0 {
        0
    } else {
        digits_value(digits.drop_last()) * 10 + (digits.last() as nat - 48) as nat
    }
}

/// Every character of `text` is an ASCII decimal digit.
pub open spec fn all_digits(text: Seq<char>) -> bool {
    forall|i: int| 0 <= i < text.len() ==> is_digit(#[trigger] text[i])
}

/// `text` without a leading `+`, if it has one.
pub open spec fn without_plus(text: Seq<char>) -> Seq<char> {
    if text.len() > 0 && text[0] == '+' {
        text.drop_first()
    } else {
        text
    }
}

/// `text` is an optional `+`, then one or more ASCII digits, whose value is at most `max`.
pub open spec fn fits(text: Seq<char>, max: nat) -> bool {
    let digits = without_plus(text);
    digits.len() > 0 && all_digits(digits) && digits_value(digits) <= max
}

/// What `usize::from_str` accepts: an optional `+`, then one or more ASCII digits,
/// whose value fits in a `usize`.
pub open spec fn parsed_usize(text: Seq<char>) -> Option<usize> {
    if fits(text, usize::MAX as nat) {
        Some(digits_value(without_plus(text)) as usize)
    } else {
        None
    }
}

proof fn lemma_digits_value_grows(digits: Seq<char>, k: int)
    requires
        0 <= k <= digits.len(),
        all_digits(digits),
    ensures
        digits_value(digits.take(k)) <= digits_value(digits),
    decreases digits.len() - k,
{
    if k < digits.len() {
        lemma_digits_value_grows(digits.drop_last(), k);
        assert(digits.drop_last().take(k) =~= digits.take(k));
        assert(digits.drop_last() =~= digits.take(digits.len() - 1));
    } else {
        assert(digits.take(k) =~= digits);
    }
}


/// Why a string is not a whole number, as `usize::from_str` and `u64::from_str` report it.
#[derive(Clone, Copy, PartialEq, Eq, Debug)]
pub enum IntErrorKind {
    /// nothing to read
    Empty,
    /// a character that isn't a digit, or a sign with no digits after it
    InvalidDigit,
    /// a value too large for the type read
    PosOverflow,
}

/// The first failure met reading `digits` from index `i` on: a character that isn't a
/// digit, or a prefix whose value exceeds `max`.
pub open spec fn first_failure(digits: Seq<char>, i: int, max: nat) -> Option<IntErrorKind>
    decreases digits.len() - i,
{
    if i < 0 || i >= digits.len() {
        None
    } else if !is_digit(digits[i]) {
        Some(IntErrorKind::InvalidDigit)
    } else if digits_value(digits.take(i + 1)) > max {
        Some(IntErrorKind::PosOverflow)
    } else {
        first_failure(digits, i + 1, max)
    }
}

/// What reading `text` as a whole number of at most `max` gives: its value, or the first
/// failure met reading it from left to right.
pub open spec fn outcome_within(text: Seq<char>, max: nat) -> Result<nat, IntErrorKind> {
    let digits = without_plus(text);
    if text.len() == 0 {
        Err(IntErrorKind::Empty)
    } else if digits.len() == 0 {
        Err(IntErrorKind::InvalidDigit)
    } else {
        match first_failure(digits, 0, max) {
            Some(failure) => Err(failure),
            None => Ok(digits_value(digits)),
        }
    }
}

/// What reading `text` as a `usize` gives: its value, or the first failure met reading it
/// from left to right.
pub open spec fn parse_outcome(text: Seq<char>) -> Result<usize, IntErrorKind> {
    match outcome_within(text, usize::MAX as nat) {
        Ok(value) => Ok(value as usize),
        Err(failure) => Err(failure),
    }
}

/// What reading `text` as a `u64` gives: its value, or the first failure met reading it
/// from left to right.
pub open spec fn parse_u64_outcome(text: Seq<char>) -> Result<u64, IntErrorKind> {
    match outcome_within(text, u64::MAX as nat) {
        Ok(value) => Ok(value as u64),
        Err(failure) => Err(failure),
    }
}

/// The number that `chars[lo..hi]` spells, read as a whole number of at most `max`.
fn parse_within(chars: &Vec<char>, lo: usize, hi: usize, max: u64) -> (outcome: Result<
    u64,
    IntErrorKind,
>)
    requires
        lo <= hi <= chars@.len(),
    ensures
        match outcome_within(chars@.subrange(lo as int, hi as int), max as nat) {
            Ok(value) => outcome == Ok::<u64, IntErrorKind>(value as u64) && value <= max,
            Err(failure) => outcome == Err::<u64, IntErrorKind>(failure),
        },
        outcome is Ok <==> fits(chars@.subrange(lo as int, hi as int), max as nat),
{
    let ghost text = chars@.subrange(lo as int, hi as int);
    if lo == hi {
        return Err(IntErrorKind::Empty);
    }
    let mut i = lo;
    if chars[i] == '+' {
        i = i + 1;
    }
    let ghost digits = chars@.subrange(i as int, hi as int);
    let ghost unsigned = without_plus(text);
    assert(digits =~= unsigned);
    if i == hi {
        return Err(IntErrorKind::InvalidDigit);
    }
    let start = i;
    let mut value: u64 = 0;
    while i < hi
        invariant
            lo <= start <= i <= hi <= chars@.len(),
            start < hi,
            digits == chars@.subrange(start as int, hi as int),
            text == chars@.subrange(lo as int, hi as int),
            text.len() > 0,
            unsigned == without_plus(text),
            digits == unsigned,
            forall|j: int| 0 <= j < i - start ==> is_digit(#[trigger] digits[j]),
            value == digits_value(digits.take(i - start)),
            value <= max,
            first_failure(digits, 0, max as nat) == first_failure(digits, i - start, max as nat),
        decreases hi - i,
    {
        let c = chars[i];
        if !('0' <= c && c <= '9') {
            assert(!is_digit(unsigned[i - start]));
            return Err(IntErrorKind::InvalidDigit);
        }
        let d = (c as u32 - 48) as u64;
        assert(digits.take(i - start + 1).drop_last() =~= digits.take(i - start));
        assert(is_digit(digits[i - start]));
        assert(digits.take(i - start + 1).last() == c);
        assert(digits_value(digits.take(i - start + 1)) == value * 10 + d);
        if d > max || value > (max - d) / 10 {
            proof {
                if all_digits(digits) {
                    lemma_digits_value_grows(digits, i - start + 1);
                }
            }
            return Err(IntErrorKind::PosOverflow);
        }
        value = value * 10 + d;
        i = i + 1;
    }
    assert(digits.take(hi - start) =~= digits);
    Ok(value)
}

/// The number that `chars[lo..hi]` spells, as `usize::from_str` reads it.
pub fn parse_usize(chars: &Vec<char>, lo: usize, hi: usize) -> (outcome: Result<usize, IntErrorKind>)
    requires
        lo <= hi <= chars@.len(),
    ensures
        outcome == parse_outcome(chars@.subrange(lo as int, hi as int)),
        match outcome {
            Ok(value) => parsed_usize(chars@.subrange(lo as int, hi as int)) == Some(value),
            Err(_) => parsed_usize(chars@.subrange(lo as int, hi as int)) is None,
        },
{
    match parse_within(chars, lo, hi, usize::MAX as u64) {
        Ok(value) => Ok(value as usize),
        Err(failure) => Err(failure),
    }
}

/// The number that `chars[lo..hi]` spells, as `u64::from_str` reads it.
pub fn parse_u64(chars: &Vec<char>, lo: usize, hi: usize) -> (outcome: Result<u64, IntErrorKind>)
    requires
        lo <= hi <= chars@.len(),
    ensures
        outcome == parse_u64_outcome(chars@.subrange(lo as int, hi as int)),
{
    parse_within(chars, lo, hi, u64::MAX)
}

} // verus!
