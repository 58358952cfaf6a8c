//! Decimal numerals: parsing a keycode field into a `u8` and rendering a
//! timestamp or file counter as its decimal digits.

use vstd::prelude::*;
use crate::text::{digit_val, is_digit};

verus! {

/// Every character of `s` is a decimal digit.
pub open spec fn all_digits(s: Seq<char>) -> bool {
    forall|i: int| 0 <= i < s.len() ==> is_digit(#[trigger] s[i])
}

/// The value of a digit string read as a decimal numeral.
pub open spec fn val_of(s: Seq<char>) -> nat
    decreases s.len(),
{
    if s.len() == 0 {
        0
    } else {
        val_of(s.drop_last()) * 10 + digit_val(s.last())
    }
}

/// What parsing a keycode field as a `u8` yields: the numeral's value for a
/// non-empty, all-digit field whose value fits, and nothing otherwise.
pub open spec fn parse_u8_spec(s: Seq<char>) -> Option<u8> {
    if s.len() > 0 && all_digits(s) && val_of(s) <= 255 {
        Some(val_of(s) as u8)
    } else {
        None
    }
}

/// A numeral's value never shrinks when more digits follow.
proof fn lemma_val_of_prefix_le(s: Seq<char>, i: int)
    requires
        0 <= i <= s.len(),
    ensures
        val_of(s.take(i)) <= val_of(s),
    decreases s.len(),
{
    if i == s.len() {
        assert(s.take(i) =~= s);
    } else {
        assert(s.drop_last().take(i) =~= s.take(i));
        lemma_val_of_prefix_le(s.drop_last(), i);
        assert(val_of(s.drop_last()) * 10 >= val_of(s.drop_last())) by (nonlinear_arith);
    }
}

/// Parses a field as an unsigned 8-bit decimal numeral.
pub fn parse_u8(s: &Vec<char>) -> (r: Option<u8>)
    ensures
        r == parse_u8_spec(s@),
{
    if s.len() == 0 {
        return None;
    }
    let mut acc: u32 = 0;
    let mut i: usize = 0;
    assert(s@.take(0) =~= Seq::<char>::empty());
    while i < s.len()
        invariant
            i <= s@.len(),
            acc <= 255,
            all_digits(s@.take(i as int)),
            acc == val_of(s@.take(i as int)),
        decreases s@.len() - i,
    {
        let u: u32 = s[i] as u32;
        if u < 48 || u > 57 {
            assert(!is_digit(s@[i as int]));
            assert(!all_digits(s@));
            return None;
        }
        assert(s@.take(i + 1).drop_last() =~= s@.take(i as int));
        assert(s@.take(i + 1).last() == s@[i as int]);
        acc = acc * 10 + (u - 48);
        assert(acc == val_of(s@.take(i + 1)));
        if acc > 255 {
            proof {
                lemma_val_of_prefix_le(s@, i + 1);
            }
            return None;
        }
        i += 1;
    }
    assert(s@.take(i as int) =~= s@);
    Some(acc as u8)
}

/// The character for one decimal digit.
pub open spec fn digit_char(d: nat) -> char {
    if d == 0 {
        '0'
    } else if d == 1 {
        '1'
    } else if d == 2 {
        '2'
    } else if d == 3 {
        '3'
    } else if d == 4 {
        '4'
    } else if d == 5 {
        '5'
    } else if d == 6 {
        '6'
    } else if d == 7 {
        '7'
    } else if d == 8 {
        '8'
    } else {
        '9'
    }
}

/// The decimal numeral for `n`: most significant digit first, no leading
/// zeros (a single `'0'` for zero itself).
pub open spec fn dec_of(n: nat) -> Seq<char>
    decreases n,
{
    if n < 10 {
        seq![digit_char(n)]
    } else {
        dec_of(n / 10).push(digit_char(n % 10))
    }
}

/// A decimal numeral is never empty and consists of digits only.
pub proof fn lemma_dec_of_digits(n: nat)
    ensures
        dec_of(n).len() >= 1,
        all_digits(dec_of(n)),
    decreases n,
{
    if n < 10 {
        assert(is_digit(digit_char(n)));
    } else {
        lemma_dec_of_digits(n / 10);
        assert(is_digit(digit_char(n % 10)));
    }
}

/// Reading a decimal numeral back yields the number it was made from.
pub proof fn lemma_val_of_dec_of(n: nat)
    ensures
        val_of(dec_of(n)) == n,
    decreases n,
{
    if n < 10 {
        let s = seq![digit_char(n)];
        assert(dec_of(n) == s);
        assert(s.drop_last() =~= Seq::<char>::empty());
        assert(val_of(s.drop_last()) == 0);
        assert(s.last() == digit_char(n));
        assert(val_of(s) == val_of(s.drop_last()) * 10 + digit_val(s.last()));
        assert(digit_val(digit_char(n)) == n);
    } else {
        lemma_val_of_dec_of(n / 10);
        assert(dec_of(n).drop_last() =~= dec_of(n / 10));
        assert(dec_of(n).last() == digit_char(n % 10));
        assert(digit_val(digit_char(n % 10)) == n % 10);
        assert(val_of(dec_of(n)) == (n / 10) * 10 + n % 10);
        assert((n / 10) * 10 + n % 10 == n) by (nonlinear_arith);
    }
}

/// Digits are neither field whitespace nor the record separator.
pub proof fn lemma_digits_plain(s: Seq<char>)
    requires
        all_digits(s),
    ensures
        forall|i: int| 0 <= i < s.len() ==> !crate::text::is_space(#[trigger] s[i]),
        forall|i: int| 0 <= i < s.len() ==> #[trigger] s[i] != '\n',
{
    assert forall|i: int| 0 <= i < s.len() implies !crate::text::is_space(#[trigger] s[i]) && s[i]
        != '\n' by {
        assert(is_digit(s[i]));
        assert(' ' as u32 == 32);
        assert('\t' as u32 == 9);
        assert('\r' as u32 == 13);
        assert('\n' as u32 == 10);
    }
}

/// The character for one decimal digit, executably.
fn digit_to_char(d: u8) -> (c: char)
    requires
        d < 10,
    ensures
        c == digit_char(d as nat),
{
    match d {
        0u8 => '0',
        1u8 => '1',
        2u8 => '2',
        3u8 => '3',
        4u8 => '4',
        5u8 => '5',
        6u8 => '6',
        7u8 => '7',
        8u8 => '8',
        _ => '9',
    }
}

/// Renders `n` as its decimal digits.
pub fn u64_to_dec(n: u64) -> (r: Vec<char>)
    ensures
        r@ == dec_of(n as nat),
{
    let mut m: u64 = n;
    let mut r: Vec<char> = Vec::new();
    assert(dec_of(n as nat) =~= dec_of(n as nat) + r@);
    while m >= 10
        invariant
            dec_of(n as nat) == dec_of(m as nat) + r@,
        decreases m,
    {
        let ghost old_r = r@;
        let d = digit_to_char((m % 10) as u8);
        r.insert(0, d);
        assert(r@ =~= seq![d] + old_r);
        assert(dec_of(m as nat) == dec_of((m / 10) as nat).push(digit_char((m % 10) as nat)));
        assert(dec_of((m / 10) as nat).push(d) + old_r =~= dec_of((m / 10) as nat) + r@);
        m = m / 10;
    }
    let ghost old_r = r@;
    let d = digit_to_char(m as u8);
    r.insert(0, d);
    assert(r@ =~= seq![d] + old_r);
    assert(dec_of(m as nat) =~= seq![d]);
    assert(dec_of(m as nat) + old_r =~= r@);
    r
}

} // verus!
