//! Numbers as text.

use vstd::prelude::*;

use crate::binary64::{self, Binary64};

verus! {

/// `String::push`: the character is put behind the others.
pub assume_specification[ std::string::String::push ](string: &mut String, c: char)
    ensures
        final(string)@ == old(string)@.push(c),
;

/// A decimal digit.
pub open spec fn digit(d: nat) -> char {
    (('0' as u32) + d) as char
}

/// A number in decimal digits.
pub open spec fn decimal(n: nat) -> Seq<char>
    decreases n,
{
    if n < 10 {
        seq![digit(n)]
    } else {
        decimal(n / 10).push(digit(n % 10))
    }
}

/// Text with spaces before it, so that it is at least `width` characters long.
pub open spec fn padded(text: Seq<char>, width: nat) -> Seq<char> {
    if text.len() < width {
        Seq::new((width - text.len()) as nat, |i: int| ' ') + text
    } else {
        text
    }
}

/// A number in decimal digits, with a comma before every three of them.
pub open spec fn grouped(n: nat) -> Seq<char>
    decreases n,
{
    if n < 1000 {
        decimal(n)
    } else {
        grouped(n / 1000) + seq![
            ',',
            digit(n / 100 % 10),
            digit(n / 10 % 10),
            digit(n % 10),
        ]
    }
}

/// A number with one decimal place.
pub open spec fn one_place(x: binary64::BinaryView) -> Seq<char> {
    let tenths = x.nearest_multiple(10);
    decimal(tenths / 10) + seq!['.', digit(tenths % 10)]
}

/// A number with two decimal places.
pub open spec fn two_places(x: binary64::BinaryView) -> Seq<char> {
    let hundredths = x.nearest_multiple(100);
    decimal(hundredths / 100) + seq!['.', digit(hundredths / 10 % 10), digit(hundredths % 10)]
}

/// Puts a digit behind a text.
fn push_digit(text: &mut String, d: u8)
    requires
        d < 10,
    ensures
        final(text)@ == old(text)@.push(digit(d as nat)),
{
    let c: char = (48u8 + d) as char;
    text.push(c);
}

/// Puts a number in decimal digits behind a text.
pub fn push_decimal(text: &mut String, n: u128)
    ensures
        final(text)@ == old(text)@ + decimal(n as nat),
    decreases n,
{
    let ghost before = text@;
    if n >= 10 {
        push_decimal(text, n / 10);
    }
    push_digit(text, (n % 10) as u8);
    assert(text@ =~= before + decimal(n as nat));
}

/// A number in decimal digits.
pub fn to_decimal(n: u64) -> (text: String)
    ensures
        text@ == decimal(n as nat),
{
    let mut text = String::new();
    push_decimal(&mut text, n as u128);
    assert(text@ =~= decimal(n as nat));
    text
}

/// Text with spaces before it, so that it is at least `width` characters long.
pub fn pad(text: &String, width: usize) -> (padding: String)
    ensures
        padding@ == padded(text@, width as nat),
{
    let len: usize = text.as_str().unicode_len();
    let mut padding = String::new();
    let mut n: usize = len;
    while n < width
        invariant
            len <= n,
            n <= width || n == len,
            padding@.len() == n - len,
            forall|i: int| 0 <= i < padding@.len() ==> #[trigger] padding@[i] == ' ',
        decreases width - n,
    {
        padding.push(' ');
        n = n + 1;
    }
    padding.append(text.as_str());
    assert(padding@ =~= padded(text@, width as nat));
    padding
}

/// A number in decimal digits, with a comma before every three of them.
pub fn num_fmt(n: u64) -> (text: String)
    ensures
        text@ == grouped(n as nat),
    decreases n,
{
    if n < 1000 {
        return to_decimal(n);
    }
    let mut text: String = num_fmt(n / 1000);
    text.push(',');
    push_digit(&mut text, (n / 100 % 10) as u8);
    push_digit(&mut text, (n / 10 % 10) as u8);
    push_digit(&mut text, (n % 10) as u8);
    assert(text@ =~= grouped(n as nat));
    text
}

/// A number with one decimal place.
pub fn with_one_place(x: Binary64) -> (text: String)
    requires
        x@.wf(),
        x.exponent <= 60,
    ensures
        text@ == one_place(x@),
{
    let tenths: u128 = x.nearest_multiple(10);
    let mut text = String::new();
    push_decimal(&mut text, tenths / 10);
    text.push('.');
    push_digit(&mut text, (tenths % 10) as u8);
    assert(text@ =~= one_place(x@));
    text
}

/// A number with two decimal places.
pub fn with_two_places(x: Binary64) -> (text: String)
    requires
        x@.wf(),
        x.exponent <= 60,
    ensures
        text@ == two_places(x@),
{
    let hundredths: u128 = x.nearest_multiple(100);
    let mut text = String::new();
    push_decimal(&mut text, hundredths / 100);
    text.push('.');
    push_digit(&mut text, (hundredths / 10 % 10) as u8);
    push_digit(&mut text, (hundredths % 10) as u8);
    assert(text@ =~= two_places(x@));
    text
}

/// Whether a character is not a comma.
pub open spec fn no_comma() -> spec_fn(char) -> bool {
    |c: char| c != ','
}

/// Without the commas, a grouped number is the number.
pub proof fn lemma_grouped_is_decimal(n: nat)
    ensures
        grouped(n).filter(no_comma()) == decimal(n),
    decreases n,
{
    if n < 1000 {
        lemma_no_commas(n);
    } else {
        lemma_grouped_is_decimal(n / 1000);
        let tail = seq![',', digit(n / 100 % 10), digit(n / 10 % 10), digit(n % 10)];
        let digits = seq![digit(n / 100 % 10), digit(n / 10 % 10), digit(n % 10)];
        Seq::filter_distributes_over_add(grouped(n / 1000), tail, no_comma());
        assert(tail.filter(no_comma()) =~= digits) by {
            reveal_with_fuel(Seq::filter, 5);
            assert(tail.drop_last().drop_last().drop_last() =~= seq![',']);
        }
        assert(n / 10 / 10 == n / 100 && n / 100 / 10 == n / 1000);
        assert(decimal(n) =~= decimal(n / 1000) + digits) by {
            assert(decimal(n) == decimal(n / 10).push(digit(n % 10)));
            assert(decimal(n / 10) == decimal(n / 100).push(digit(n / 10 % 10)));
            assert(decimal(n / 100) == decimal(n / 1000).push(digit(n / 100 % 10)));
        }
    }
}

/// A number in decimal digits has no commas.
proof fn lemma_no_commas(n: nat)
    ensures
        decimal(n).filter(no_comma()) == decimal(n),
    decreases n,
{
    reveal(Seq::filter);
    if n < 10 {
        assert(decimal(n).drop_last() =~= Seq::empty());
        assert(decimal(n).filter(no_comma()) =~= decimal(n));
    } else {
        lemma_no_commas(n / 10);
        assert(decimal(n).drop_last() =~= decimal(n / 10));
    }
}

} // verus!
