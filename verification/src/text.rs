//! Numbers and bytes as text.

use vstd::prelude::*;
use vstd::slice::slice_subrange;
use vstd::string::*;
use vstd::utf8::*;

verus! {

/// `String::push`: appends one character at the end of the string.
pub assume_specification[ String::push ](text: &mut String, c: char)
    ensures
        final(text)@ == old(text)@.push(c),
;

/// The text of a byte string, where it has one.
///
/// `core::str::from_utf8`: the bytes are accepted exactly when they are valid UTF-8, and
/// the text is the one that they encode.
#[verifier::external_body]
pub(crate) fn utf8_text(bytes: &[u8]) -> (text: Option<String>)
    ensures
        text is Some <==> valid_utf8(bytes@),
        text is Some ==> text->0@ == decode_utf8(bytes@),
{
    core::str::from_utf8(bytes).ok().map(String::from)
}

/// The character of a decimal digit.
pub open spec fn digit_char(d: nat) -> char {
    (48 + d) as char
}

/// The shortest decimal numeral of `n`.
pub open spec fn decimal(n: nat) -> Seq<char>
    decreases n,
{
    if n < 10 {
        seq![digit_char(n)]
    } else {
        decimal(n / 10).push(digit_char(n % 10))
    }
}

/// The decimal numeral of `n`, filled up with zeros on the left to `width` characters.
pub open spec fn padded_decimal(n: nat, width: nat) -> Seq<char> {
    if decimal(n).len() < width {
        Seq::new((width - decimal(n).len()) as nat, |i: int| '0') + decimal(n)
    } else {
        decimal(n)
    }
}

pub open spec fn is_digit(c: char) -> bool {
    '0' <= c <= '9'
}

pub open spec fn all_digits(text: Seq<char>) -> bool {
    forall|i: int| 0 <= i < text.len() ==> is_digit(#[trigger] text[i])
}

/// The number that a string of digits denotes, leading zeros allowed.
pub open spec fn decimal_value(text: Seq<char>) -> nat
    decreases text.len(),
{
    if text.len() == 0 {
        0
    } else {
        decimal_value(text.drop_last()) * 10 + (text.last() as nat - 48) as nat
    }
}

/// A numeral holds digits alone, at least one of them, and denotes its number.
pub proof fn lemma_decimal(n: nat)
    ensures
        decimal(n).len() > 0,
        all_digits(decimal(n)),
        decimal_value(decimal(n)) == n,
    decreases n,
{
    if n < 10 {
        assert(decimal(n).drop_last() =~= Seq::<char>::empty());
        assert(decimal_value(decimal(n).drop_last()) == 0);
    } else {
        lemma_decimal(n / 10);
        assert(decimal(n).drop_last() =~= decimal(n / 10));
    }
}

proof fn lemma_leading_zeros(zeros: nat, text: Seq<char>)
    ensures
        decimal_value(Seq::new(zeros, |i: int| '0') + text) == decimal_value(text),
    decreases text.len(), zeros,
{
    let all = Seq::new(zeros, |i: int| '0') + text;
    if text.len() > 0 {
        assert(all.drop_last() =~= Seq::new(zeros, |i: int| '0') + text.drop_last());
        lemma_leading_zeros(zeros, text.drop_last());
    } else if zeros > 0 {
        let fewer = Seq::new((zeros - 1) as nat, |i: int| '0') + text;
        assert(all.drop_last() =~= fewer);
        lemma_leading_zeros((zeros - 1) as nat, text);
    }
}

/// Filling up with zeros keeps the number.
pub proof fn lemma_padded_decimal(n: nat, width: nat)
    ensures
        padded_decimal(n, width).len() >= width,
        padded_decimal(n, width).len() > 0,
        all_digits(padded_decimal(n, width)),
        decimal_value(padded_decimal(n, width)) == n,
{
    lemma_decimal(n);
    if decimal(n).len() < width {
        lemma_leading_zeros((width - decimal(n).len()) as nat, decimal(n));
    }
}

/// A smaller number has no longer a numeral.
pub proof fn lemma_decimal_length(n: nat, m: nat)
    requires
        n <= m,
    ensures
        decimal(n).len() <= decimal(m).len(),
    decreases m,
{
    if m >= 10 {
        if n >= 10 {
            lemma_decimal_length(n / 10, m / 10);
        } else {
            lemma_decimal(m / 10);
        }
    }
}

/// Appends the decimal numeral of `n`.
pub fn append_decimal(out: &mut String, n: u64)
    ensures
        final(out)@ == old(out)@ + decimal(n as nat),
    decreases n,
{
    if n >= 10 {
        append_decimal(out, n / 10);
    }
    let digit: u8 = (n % 10) as u8;
    out.push((48 + digit) as char);
    assert(out@ =~= old(out)@ + decimal(n as nat));
}

/// Appends the decimal numeral of `n`, filled up with zeros to `width` characters.
pub fn append_padded_decimal(out: &mut String, n: u64, width: usize)
    ensures
        final(out)@ == old(out)@ + padded_decimal(n as nat, width as nat),
{
    let mut numeral = String::new();
    append_decimal(&mut numeral, n);
    assert(numeral@ =~= decimal(n as nat));
    let length: usize = numeral.as_str().unicode_len();
    let mut filled: usize = length;
    while filled < width
        invariant
            numeral@ == decimal(n as nat),
            length == numeral@.len(),
            length <= filled,
            length <= width ==> filled <= width,
            length > width ==> filled == length,
            out@ == old(out)@ + Seq::new((filled - length) as nat, |i: int| '0'),
        decreases width - filled,
    {
        let ghost before = out@;
        out.push('0');
        filled = filled + 1;
        assert(out@ =~= old(out)@ + Seq::new((filled - length) as nat, |i: int| '0'));
    }
    out.append(numeral.as_str());
    assert(out@ =~= old(out)@ + padded_decimal(n as nat, width as nat));
}

/// The character of an upper-case hexadecimal digit.
pub open spec fn hex_char(d: nat) -> char {
    if d < 10 {
        (48 + d) as char
    } else {
        (55 + d) as char
    }
}

/// `hex_char`, computed.
pub fn hex_digit(d: u8) -> (c: char)
    requires
        d < 16,
    ensures
        c == hex_char(d as nat),
{
    if d < 10 {
        (48 + d) as char
    } else {
        (55 + d) as char
    }
}

/// Different digits have different characters, and none is the percent sign.
pub proof fn lemma_hex_char(a: nat, b: nat)
    requires
        a < 16,
        b < 16,
    ensures
        hex_char(a) == hex_char(b) ==> a == b,
        hex_char(a) != '%',
{
}

pub open spec fn is_digit_byte(b: u8) -> bool {
    48 <= b <= 57
}

/// The number that ASCII digits denote.
pub open spec fn digits_value(digits: Seq<u8>) -> nat
    decreases digits.len(),
{
    if digits.len() == 0 {
        0
    } else {
        digits_value(digits.drop_last()) * 10 + (digits.last() as nat - 48) as nat
    }
}

/// The number that a text denotes: an optional plus sign and digits, at least one of them,
/// for a number of at most `max`.
pub open spec fn parsed_number(text: Seq<u8>, max: nat) -> Option<nat> {
    parsed_digits(
        if text.len() > 0 && text[0] == 43 {
            text.skip(1)
        } else {
            text
        },
        max,
    )
}

/// The number of at most `max` that digits denote.
pub open spec fn parsed_digits(digits: Seq<u8>, max: nat) -> Option<nat> {
    if digits.len() > 0 && all_digit_bytes(digits) && digits_value(digits) <= max {
        Some(digits_value(digits))
    } else {
        None
    }
}

pub open spec fn all_digit_bytes(digits: Seq<u8>) -> bool {
    forall|i: int| 0 <= i < digits.len() ==> is_digit_byte(#[trigger] digits[i])
}

proof fn lemma_digits_value_grows(digits: Seq<u8>, n: int)
    requires
        0 <= n <= digits.len(),
    ensures
        digits_value(digits.take(n)) <= digits_value(digits),
    decreases digits.len(),
{
    if n == digits.len() {
        assert(digits.take(n) =~= digits);
    } else {
        lemma_digits_value_grows(digits.drop_last(), n);
        assert(digits.drop_last().take(n) =~= digits.take(n));
    }
}

/// The number of at most `max` that a text denotes.
pub fn parse_number(text: &[u8], max: u64) -> (number: Option<u64>)
    ensures
        number is Some <==> parsed_number(text@, max as nat) is Some,
        number is Some ==> number->0 == parsed_number(text@, max as nat)->0,
{
    if text.len() > 0 && text[0] == 43 {
        parse_digits(slice_subrange(text, 1, text.len()), max)
    } else {
        parse_digits(text, max)
    }
}

fn parse_digits(digits: &[u8], max: u64) -> (number: Option<u64>)
    ensures
        number is Some <==> parsed_digits(digits@, max as nat) is Some,
        number is Some ==> number->0 == parsed_digits(digits@, max as nat)->0,
{
    if digits.len() == 0 {
        return None;
    }
    let mut value: u64 = 0;
    let mut i: usize = 0;
    while i < digits.len()
        invariant
            i <= digits@.len(),
            digits@.len() > 0,
            forall|k: int| 0 <= k < i ==> is_digit_byte(#[trigger] digits@[k]),
            value == digits_value(digits@.take(i as int)),
            value <= max,
        decreases digits@.len() - i,
    {
        let b: u8 = digits[i];
        if b < 48 || b > 57 {
            assert(!is_digit_byte(digits@[i as int]));
            return None;
        }
        let next: u128 = value as u128 * 10 + (b - 48) as u128;
        assert(digits@.take(i + 1).drop_last() =~= digits@.take(i as int));
        if next > max as u128 {
            proof {
                lemma_digits_value_grows(digits@, i + 1);
            }
            return None;
        }
        value = next as u64;
        i = i + 1;
    }
    assert(digits@.take(i as int) =~= digits@);
    Some(value)
}

/// Whether two byte strings hold the same bytes.
pub fn bytes_equal(a: &[u8], b: &[u8]) -> (equal: bool)
    ensures
        equal == (a@ == b@),
{
    if a.len() != b.len() {
        return false;
    }
    let mut i: usize = 0;
    while i < a.len()
        invariant
            i <= a@.len(),
            a@.len() == b@.len(),
            forall|k: int| 0 <= k < i ==> a@[k] == b@[k],
        decreases a@.len() - i,
    {
        if a[i] != b[i] {
            return false;
        }
        i = i + 1;
    }
    assert(a@ =~= b@);
    true
}

/// The characters of a string.
pub fn chars_of(text: &str) -> (chars: Vec<char>)
    ensures
        chars@ == text@,
{
    let mut chars: Vec<char> = Vec::new();
    for c in iter: text.chars()
        invariant
            iter.seq() == text@,
            chars@ == text@.take(iter.index()),
    {
        chars.push(c);
        assert(chars@ =~= text@.take(iter.index() + 1));
    }
    assert(text@.take(text@.len() as int) =~= text@);
    chars
}

/// Whether two texts hold the same characters.
pub fn chars_equal(a: &Vec<char>, b: &Vec<char>) -> (equal: bool)
    ensures
        equal == (a@ == b@),
{
    if a.len() != b.len() {
        return false;
    }
    let mut i: usize = 0;
    while i < a.len()
        invariant
            i <= a@.len(),
            a@.len() == b@.len(),
            forall|k: int| 0 <= k < i ==> a@[k] == b@[k],
        decreases a@.len() - i,
    {
        if a[i] != b[i] {
            return false;
        }
        i = i + 1;
    }
    assert(a@ =~= b@);
    true
}

/// Whether two texts hold the same characters.
pub fn same_text(a: &str, b: &str) -> (same: bool)
    ensures
        same == (a@ == b@),
{
    chars_equal(&chars_of(a), &chars_of(b))
}

/// Appends bytes.
pub fn append_bytes(out: &mut Vec<u8>, bytes: &[u8])
    ensures
        final(out)@ == old(out)@ + bytes@,
{
    let mut i: usize = 0;
    while i < bytes.len()
        invariant
            i <= bytes@.len(),
            out@ == old(out)@ + bytes@.take(i as int),
        decreases bytes@.len() - i,
    {
        out.push(bytes[i]);
        i = i + 1;
        assert(out@ =~= old(out)@ + bytes@.take(i as int));
    }
    assert(bytes@.take(i as int) =~= bytes@);
}

} // verus!
