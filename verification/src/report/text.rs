//! Building blocks for the report's text: numbers in decimal and padding to a width.

use vstd::prelude::*;
use vstd::string::{StrSliceExecFns, StringExecFns};

verus! {

/// The character of decimal digit `d`.
pub open spec fn digit_char(d: int) -> char {
    (d + 48) as char
}

/// `n` written in decimal, without leading zeros.
pub open spec fn decimal(n: nat) -> Seq<char>
    decreases n,
{
    if n < 10 {
        seq![digit_char(n as int)]
    } else {
        decimal(n / 10).push(digit_char((n % 10) as int))
    }
}

/// `n` spaces.
pub open spec fn spaces(n: nat) -> Seq<char> {
    Seq::new(n, |i: int| ' ')
}

/// `text` right-aligned in a field of `width` characters; longer text is left whole.
pub open spec fn pad_left(text: Seq<char>, width: nat) -> Seq<char> {
    if text.len() < width {
        spaces((width - text.len()) as nat) + text
    } else {
        text
    }
}

/// `text` left-aligned in a field of `width` characters; longer text is left whole.
pub open spec fn pad_right(text: Seq<char>, width: nat) -> Seq<char> {
    if text.len() < width {
        text + spaces((width - text.len()) as nat)
    } else {
        text
    }
}

/// `String::push`, which the standard library documents as appending the character
/// to the end of the string.
#[verifier::external_body]
pub(crate) fn push_char(text: &mut String, c: char)
    ensures
        final(text)@ == old(text)@.push(c),
{
    text.push(c);
}

/// The character of decimal digit `d`.
fn digit(d: usize) -> (c: char)
    requires
        d < 10,
    ensures
        c == digit_char(d as int),
{
    ((d as u8) + 48u8) as char
}

/// `n` written in decimal.
pub fn decimal_string(n: usize) -> (text: String)
    ensures
        text@ == decimal(n as nat),
    decreases n,
{
    if n < 10 {
        let mut text = String::new();
        push_char(&mut text, digit(n));
        text
    } else {
        let mut text = decimal_string(n / 10);
        push_char(&mut text, digit(n % 10));
        text
    }
}

/// Appends `n` spaces.
pub fn push_spaces(text: &mut String, n: usize)
    ensures
        final(text)@ == old(text)@ + spaces(n as nat),
{
    let mut i: usize = 0;
    while i < n
        invariant
            i <= n,
            text@ == old(text)@ + spaces(i as nat),
        decreases n - i,
    {
        push_char(text, ' ');
        i = i + 1;
        assert(text@ =~= old(text)@ + spaces(i as nat));
    }
}

/// `text` right-aligned in a field of `width` characters.
pub fn padded_left(text: &str, width: usize) -> (padded: String)
    ensures
        padded@ == pad_left(text@, width as nat),
{
    let len = text.unicode_len();
    let mut padded = String::new();
    if len < width {
        push_spaces(&mut padded, width - len);
    }
    padded.append(text);
    assert(padded@ =~= pad_left(text@, width as nat));
    padded
}

/// `text` left-aligned in a field of `width` characters.
pub fn padded_right(text: &str, width: usize) -> (padded: String)
    ensures
        padded@ == pad_right(text@, width as nat),
{
    let len = text.unicode_len();
    let mut padded = String::from_str(text);
    if len < width {
        push_spaces(&mut padded, width - len);
    }
    assert(padded@ =~= pad_right(text@, width as nat));
    padded
}

} // verus!

verus! {

/// The last three decimal digits of `n`, zeros included.
pub open spec fn three_digits(n: nat) -> Seq<char> {
    seq![
        digit_char(((n / 100) % 10) as int),
        digit_char(((n / 10) % 10) as int),
        digit_char((n % 10) as int),
    ]
}

/// `n` in decimal with thousands separators, e.g. 1234567 -> "1,234,567".
pub open spec fn grouped(n: nat) -> Seq<char>
    decreases n,
{
    if n < 1000 {
        decimal(n)
    } else {
        grouped(n / 1000) + seq![','] + three_digits(n % 1000)
    }
}

/// An integer with thousands separators, e.g. 1234567 -> "1,234,567".
pub fn group(n: usize) -> (grouped_text: String)
    ensures
        grouped_text@ == grouped(n as nat),
    decreases n,
{
    if n < 1000 {
        decimal_string(n)
    } else {
        let mut text = group(n / 1000);
        let low = n % 1000;
        push_char(&mut text, ',');
        push_char(&mut text, digit(low / 100));
        push_char(&mut text, digit((low / 10) % 10));
        push_char(&mut text, digit(low % 10));
        assert(text@ =~= grouped(n as nat));
        text
    }
}

} // verus!

verus! {

/// `10` to the power `k`.
pub open spec fn pow10(k: nat) -> nat
    decreases k,
{
    if k == 0 {
        1
    } else {
        10 * pow10((k - 1) as nat)
    }
}

/// A number below `10^k` takes at most `k` digits.
pub proof fn lemma_decimal_len(n: nat, k: nat)
    requires
        k >= 1,
        n < pow10(k),
    ensures
        decimal(n).len() <= k,
    decreases n,
{
    if n >= 10 {
        if k == 1 {
            assert(pow10(1) == 10 * pow10(0));
        } else {
            lemma_decimal_len(n / 10, (k - 1) as nat);
        }
    }
}

/// A `usize` takes at most 20 decimal digits.
pub proof fn lemma_usize_decimal_len(n: usize)
    ensures
        decimal(n as nat).len() <= 20,
{
    reveal_with_fuel(pow10, 21);
    assert(pow10(20) == 100000000000000000000nat);
    lemma_decimal_len(n as nat, 20);
}

} // verus!

verus! {

/// `text` without its commas.
pub open spec fn without_commas(text: Seq<char>) -> Seq<char>
    decreases text.len(),
{
    if text.len() == 0 {
        Seq::empty()
    } else if text.last() == ',' {
        without_commas(text.drop_last())
    } else {
        without_commas(text.drop_last()).push(text.last())
    }
}

/// How many commas `text` holds.
pub open spec fn commas(text: Seq<char>) -> nat
    decreases text.len(),
{
    if text.len() == 0 {
        0
    } else {
        commas(text.drop_last()) + if text.last() == ',' {
            1nat
        } else {
            0nat
        }
    }
}

proof fn lemma_without_commas_append(a: Seq<char>, b: Seq<char>)
    ensures
        without_commas(a + b) == without_commas(a) + without_commas(b),
        commas(a + b) == commas(a) + commas(b),
    decreases b.len(),
{
    if b.len() == 0 {
        assert(a + b =~= a);
        assert(without_commas(a) + Seq::<char>::empty() =~= without_commas(a));
    } else {
        lemma_without_commas_append(a, b.drop_last());
        assert((a + b).drop_last() =~= a + b.drop_last());
        assert((a + b).last() == b.last());
        assert(without_commas(a) + without_commas(b.drop_last()).push(b.last()) =~= (
        without_commas(a) + without_commas(b.drop_last())).push(b.last()));
    }
}

/// Decimal digits hold no commas.
proof fn lemma_decimal_has_no_commas(n: nat)
    ensures
        without_commas(decimal(n)) == decimal(n),
        commas(decimal(n)) == 0,
        1 <= decimal(n).len(),
        n < 10 ==> decimal(n).len() <= 1,
        n < 100 ==> decimal(n).len() <= 2,
        n < 1000 ==> decimal(n).len() <= 3,
    decreases n,
{
    let d = (n % 10) as int;
    assert(digit_char(d) as u32 == d + 48);
    assert(decimal(n).last() == digit_char(d));
    assert(decimal(n).last() != ',');
    if n >= 10 {
        lemma_decimal_has_no_commas(n / 10);
        assert(decimal(n).drop_last() =~= decimal(n / 10));
    } else {
        assert(decimal(n).drop_last() =~= Seq::<char>::empty());
        assert(without_commas(Seq::<char>::empty()) =~= Seq::<char>::empty());
        assert(commas(Seq::<char>::empty()) == 0);
    }
}

/// Past 999, the decimal digits of `n` are those of `n / 1000` followed by the last three.
proof fn lemma_decimal_thousands(n: nat)
    requires
        n >= 1000,
    ensures
        decimal(n) == decimal(n / 1000) + three_digits(n % 1000),
{
    assert(n / 10 / 10 == n / 100);
    assert(n / 100 / 10 == n / 1000);
    assert((n / 10) % 10 == ((n % 1000) / 10) % 10);
    assert((n / 100) % 10 == ((n % 1000) / 100) % 10);
    assert(n % 10 == (n % 1000) % 10);
    assert(decimal(n / 10) == decimal(n / 100).push(digit_char(((n / 10) % 10) as int)));
    assert(decimal(n / 100) == decimal(n / 1000).push(digit_char(((n / 100) % 10) as int)));
    assert(decimal(n) =~= decimal(n / 1000) + three_digits(n % 1000));
}

/// Thousands separators only separate: without its commas, `grouped(n)` is `n` in decimal,
/// and it holds one comma for every full group of three digits after the first digits.
pub proof fn lemma_grouped_round_trip(n: nat)
    ensures
        without_commas(grouped(n)) == decimal(n),
        commas(grouped(n)) == (decimal(n).len() - 1) / 3,
    decreases n,
{
    lemma_decimal_has_no_commas(n);
    if n >= 1000 {
        lemma_grouped_round_trip(n / 1000);
        lemma_decimal_thousands(n);
        lemma_decimal_has_no_commas(n / 1000);
        let low = three_digits(n % 1000);
        assert(without_commas(low) =~= low && commas(low) == 0) by {
            reveal_with_fuel(without_commas, 4);
            reveal_with_fuel(commas, 4);
        }
        lemma_without_commas_append(grouped(n / 1000), seq![',']);
        lemma_without_commas_append(grouped(n / 1000) + seq![','], low);
        lemma_without_commas_append(decimal(n / 1000), low);
        assert(without_commas(seq![',']) =~= Seq::<char>::empty()) by {
            reveal_with_fuel(without_commas, 2);
        }
        assert(commas(seq![',']) == 1) by {
            reveal_with_fuel(commas, 2);
        }
        assert(without_commas(grouped(n / 1000)) + Seq::<char>::empty() =~= without_commas(
            grouped(n / 1000),
        ));
    }
}

} // verus!
