//! Decimal rendering of unsigned integers, used for checkpoint file names
//! and for numeric row fields.

use vstd::prelude::*;

verus! {

/// The character for a single decimal digit.
pub open spec fn digit_char(d: nat) -> char
    recommends
        d < 10,
{
    ((48 + d) as u8) as char
}

/// The usual decimal rendering of `n`, with no leading zeros
/// (and `"0"` for zero itself).
pub open spec fn dec_str(n: nat) -> Seq<char>
    decreases n,
{
    if n < 10 {
        seq![digit_char(n)]
    } else {
        dec_str(n / 10).push(digit_char(n % 10))
    }
}

fn digit_to_char(d: u64) -> (c: char)
    requires
        d < 10,
    ensures
        c == digit_char(d as nat),
{
    (48 + d as u8) as char
}

/// Renders `n` in decimal.
pub fn u64_to_dec_chars(n: u64) -> (v: Vec<char>)
    ensures
        v@ == dec_str(n as nat),
    decreases n,
{
    if n < 10 {
        let mut v: Vec<char> = Vec::new();
        v.push(digit_to_char(n));
        assert(v@ =~= dec_str(n as nat));
        v
    } else {
        let mut v = u64_to_dec_chars(n / 10);
        v.push(digit_to_char(n % 10));
        assert(v@ =~= dec_str(n as nat));
        v
    }
}

/// A decimal digit character.
pub open spec fn is_dec_digit(c: char) -> bool {
    48 <= c as u32 <= 57
}

/// Every character of a decimal rendering is a digit.
pub proof fn lemma_dec_str_digits(n: nat)
    ensures
        forall|i: int| 0 <= i < dec_str(n).len() ==> is_dec_digit(#[trigger] dec_str(n)[i]),
    decreases n,
{
    if n < 10 {
        assert(dec_str(n) =~= seq![digit_char(n)]);
        assert(digit_char(n) as u32 == 48 + n);
    } else {
        lemma_dec_str_digits(n / 10);
        assert(dec_str(n) =~= dec_str(n / 10).push(digit_char(n % 10)));
        assert(digit_char(n % 10) as u32 == 48 + n % 10);
        assert(forall|i: int|
            0 <= i < dec_str(n).len() - 1 ==> #[trigger] dec_str(n)[i] == dec_str(n / 10)[i]);
    }
}

/// Decimal renderings are at least one character long.
pub proof fn lemma_dec_str_len(n: nat)
    ensures
        dec_str(n).len() >= 1,
        n >= 10 ==> dec_str(n).len() >= 2,
    decreases n,
{
    if n < 10 {
    } else {
        lemma_dec_str_len(n / 10);
    }
}

/// Distinct numbers have distinct decimal renderings.
pub proof fn lemma_dec_str_injective(a: nat, b: nat)
    requires
        dec_str(a) == dec_str(b),
    ensures
        a == b,
    decreases a,
{
    lemma_dec_str_len(a);
    lemma_dec_str_len(b);
    if a < 10 && b < 10 {
        assert(dec_str(a) =~= seq![digit_char(a)]);
        assert(dec_str(b) =~= seq![digit_char(b)]);
        assert(dec_str(a)[0] == digit_char(a));
        assert(dec_str(b)[0] == digit_char(b));
        assert(digit_char(a) == digit_char(b));
        assert((48 + a) as u8 == (48 + b) as u8) by {
            assert(((48 + a) as u8) as char == ((48 + b) as u8) as char);
        }
    } else if a >= 10 && b >= 10 {
        assert(dec_str(a) =~= dec_str(a / 10).push(digit_char(a % 10)));
        assert(dec_str(b) =~= dec_str(b / 10).push(digit_char(b % 10)));
        assert(dec_str(a).last() == digit_char(a % 10));
        assert(dec_str(b).last() == digit_char(b % 10));
        assert(digit_char(a % 10) == digit_char(b % 10));
        assert((48 + a % 10) as u8 == (48 + b % 10) as u8) by {
            assert(((48 + a % 10) as u8) as char == ((48 + b % 10) as u8) as char);
        }
        assert(a % 10 == b % 10);
        assert(dec_str(a).drop_last() =~= dec_str(a / 10));
        assert(dec_str(b).drop_last() =~= dec_str(b / 10));
        lemma_dec_str_injective(a / 10, b / 10);
        assert(a == 10 * (a / 10) + a % 10);
        assert(b == 10 * (b / 10) + b % 10);
    } else {
        // One rendering has one character and the other at least two.
        assert(dec_str(a).len() == dec_str(b).len());
        assert(false);
    }
}

} // verus!
