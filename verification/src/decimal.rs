//! Decimal numerals: formatting an unsigned integer as its decimal digit
//! string and parsing such a string back. Ciphertext tokens and serialized
//! public keys travel in this form.

use vstd::prelude::*;

verus! {

use vstd::arithmetic::div_mod::lemma_fundamental_div_mod;
use vstd::string::StrSliceExecFns;

/// A decimal digit.
pub open spec fn is_digit(c: char) -> bool {
    '0' <= c && c <= '9'
}

/// The value of a digit character.
pub open spec fn digit_val(c: char) -> nat {
    (c as nat - '0' as nat) as nat
}

/// Every character of `s` is a decimal digit.
pub open spec fn all_digits(s: Seq<char>) -> bool {
    forall|i: int| 0 <= i < s.len() ==> is_digit(#[trigger] s[i])
}

/// The number a digit string denotes, most significant digit first.
pub open spec fn dec_value(s: Seq<char>) -> nat
    decreases s.len(),
{
    if s.len() == 0 {
        0
    } else {
        dec_value(s.drop_last()) * 10 + digit_val(s.last())
    }
}

/// The decimal digit string of `n`, without leading zeros.
pub open spec fn dec_string_of(n: nat) -> Seq<char>
    decreases n,
{
    if n < 10 {
        seq![(('0' as nat + n) as char)]
    } else {
        dec_string_of(n / 10).push((('0' as nat + n % 10) as char))
    }
}

/// Formatting then evaluating gives the number back, the digits are digits,
/// and the string is never empty.
pub proof fn lemma_dec_string_of(n: nat)
    ensures
        dec_value(dec_string_of(n)) == n,
        all_digits(dec_string_of(n)),
        dec_string_of(n).len() >= 1,
    decreases n,
{
    if n < 10 {
        let s = dec_string_of(n);
        let c = (('0' as nat + n) as char);
        assert(s.drop_last() =~= Seq::<char>::empty());
        assert(dec_value(Seq::<char>::empty()) == 0);
        assert(s.last() == c);
        assert(digit_val(c) == n);
        assert(is_digit(s[0]));
    } else {
        lemma_dec_string_of(n / 10);
        let q = dec_string_of(n / 10);
        let c = (('0' as nat + n % 10) as char);
        let s = q.push(c);
        assert(s.drop_last() =~= q);
        assert(s.last() == c);
        assert(digit_val(c) == n % 10);
        lemma_fundamental_div_mod(n as int, 10);
        assert(is_digit(c));
        assert forall|i: int| 0 <= i < s.len() implies is_digit(#[trigger] s[i]) by {
            if i < q.len() {
                assert(s[i] == q[i]);
            }
        }
    }
}

/// A digit string evaluates below `10^len`; in particular a one-digit
/// extension multiplies the bound by ten.
pub proof fn lemma_dec_value_append_digit(s: Seq<char>, c: char)
    ensures
        dec_value(s.push(c)) == dec_value(s) * 10 + digit_val(c),
{
    assert(s.push(c).drop_last() =~= s);
    assert(s.push(c).last() == c);
}

/// The value of a proper prefix never exceeds the value of the whole string.
pub proof fn lemma_dec_value_prefix_le(s: Seq<char>, i: int)
    requires
        0 <= i <= s.len(),
    ensures
        dec_value(s.take(i)) <= dec_value(s),
    decreases s.len() - i,
{
    if i == s.len() {
        assert(s.take(i) =~= s);
    } else {
        lemma_dec_value_prefix_le(s, i + 1);
        assert(s.take(i + 1).drop_last() =~= s.take(i));
        assert(s.take(i + 1).last() == s[i]);
        assert(dec_value(s.take(i + 1)) == dec_value(s.take(i)) * 10 + digit_val(s[i]));
    }
}

/// Formats `v` as its decimal digit string.
pub fn u128_to_string(v: u128) -> (r: String)
    ensures
        r@ == dec_string_of(v as nat),
        r@.len() >= 1,
        all_digits(r@),
    decreases v,
{
    proof {
        lemma_dec_string_of(v as nat);
    }
    if v < 10 {
        let c: char = (('0' as u8) + (v as u8)) as char;
        let mut s = String::new();
        crate::text::push_char(&mut s, c);
        proof {
            assert(s@ =~= dec_string_of(v as nat));
        }
        s
    } else {
        let mut s = u128_to_string(v / 10);
        let c: char = (('0' as u8) + ((v % 10) as u8)) as char;
        crate::text::push_char(&mut s, c);
        s
    }
}

/// Parses a decimal digit string into the number it denotes.
pub fn u128_from_str(s: &str) -> (r: u128)
    requires
        s@.len() >= 1,
        all_digits(s@),
        dec_value(s@) <= u128::MAX,
    ensures
        r == dec_value(s@),
{
    let n = s.unicode_len();
    let mut acc: u128 = 0;
    let mut i: usize = 0;
    proof {
        assert(s@.take(0) =~= Seq::<char>::empty());
    }
    while i < n
        invariant
            0 <= i <= n,
            n == s@.len(),
            all_digits(s@),
            dec_value(s@) <= u128::MAX,
            acc == dec_value(s@.take(i as int)),
        decreases n - i,
    {
        let c = s.get_char(i);
        proof {
            assert(is_digit(s@[i as int]));
            lemma_dec_value_prefix_le(s@, i + 1);
            assert(s@.take(i + 1).drop_last() =~= s@.take(i as int));
            assert(s@.take(i + 1).last() == s@[i as int]);
        }
        let d: u8 = (c as u32 - '0' as u32) as u8;
        acc = acc * 10 + (d as u128);
        i += 1;
    }
    proof {
        assert(s@.take(n as int) =~= s@);
    }
    acc
}

} // verus!
