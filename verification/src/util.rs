//! Small string helpers over std, and decimal formatting of integers.
use vstd::prelude::*;
use vstd::string::*;

verus! {

/// `str` equality from std (`<str as PartialEq>::eq`): true exactly when the
/// two strings hold the same characters.
#[verifier::external_body]
pub fn str_eq(a: &str, b: &str) -> (r: bool)
    ensures r == (a@ == b@),
{
    a == b
}

/// `String::push` from std: appends one character.
#[verifier::external_body]
pub fn push_char(s: &mut String, c: char)
    ensures final(s)@ == old(s)@.push(c),
{
    s.push(c)
}

/// The character of a decimal digit.
pub open spec fn digit_char(d: nat) -> char {
    if d == 0 { '0' } else if d == 1 { '1' } else if d == 2 { '2' } else if d == 3 { '3' }
    else if d == 4 { '4' } else if d == 5 { '5' } else if d == 6 { '6' } else if d == 7 { '7' }
    else if d == 8 { '8' } else { '9' }
}

/// The decimal digits of `n`, most significant first, without leading zeros
/// (`0` is written `0`).
pub open spec fn dec_nat(n: nat) -> Seq<char>
    decreases n,
{
    if n < 10 {
        seq![digit_char(n)]
    } else {
        dec_nat(n / 10).push(digit_char(n % 10))
    }
}

/// The decimal form of an integer, with a leading `-` when it is negative.
pub open spec fn dec_int(i: int) -> Seq<char> {
    if i < 0 { seq!['-'] + dec_nat((-i) as nat) } else { dec_nat(i as nat) }
}

fn digit(d: u64) -> (c: char)
    requires d < 10,
    ensures c == digit_char(d as nat),
{
    match d {
        0 => '0',
        1 => '1',
        2 => '2',
        3 => '3',
        4 => '4',
        5 => '5',
        6 => '6',
        7 => '7',
        8 => '8',
        _ => '9',
    }
}

/// Appends the decimal form of `n`.
pub fn append_u64(s: &mut String, n: u64)
    ensures final(s)@ == old(s)@ + dec_nat(n as nat),
    decreases n,
{
    if n < 10 {
        push_char(s, digit(n));
        assert(dec_nat(n as nat) == seq![digit_char(n as nat)]);
        assert(final(s)@ =~= old(s)@ + dec_nat(n as nat));
    } else {
        append_u64(s, n / 10);
        push_char(s, digit(n % 10));
        assert(dec_nat(n as nat) == dec_nat((n / 10) as nat).push(digit_char((n % 10) as nat)));
        assert(final(s)@ =~= old(s)@ + dec_nat(n as nat));
    }
}

/// Appends the decimal form of `i`.
pub fn append_i64(s: &mut String, i: i64)
    ensures final(s)@ == old(s)@ + dec_int(i as int),
{
    if i < 0 {
        push_char(s, '-');
        let m: u64 = if i == i64::MIN { 9223372036854775808u64 } else { (-i) as u64 };
        append_u64(s, m);
        assert(final(s)@ =~= old(s)@ + dec_int(i as int));
    } else {
        append_u64(s, i as u64);
    }
}

/// Appends the decimal form of `i`.
pub fn append_i32(s: &mut String, i: i32)
    ensures final(s)@ == old(s)@ + dec_int(i as int),
{
    append_i64(s, i as i64);
}

/// Appends the decimal form of `n`.
pub fn append_usize(s: &mut String, n: usize)
    ensures final(s)@ == old(s)@ + dec_nat(n as nat),
{
    append_u64(s, n as u64);
}

/// Appends the decimal form of `i`.
pub fn append_isize(s: &mut String, i: isize)
    ensures final(s)@ == old(s)@ + dec_int(i as int),
{
    append_i64(s, i as i64);
}

/// A string holding the concatenation of a literal and a number.
pub fn str_with_u64(prefix: &str, n: u64) -> (r: String)
    ensures r@ == prefix@ + dec_nat(n as nat),
{
    let mut s = String::new();
    s.append(prefix);
    assert(s@ =~= prefix@);
    append_u64(&mut s, n);
    s
}

} // verus!
