//! Arbitrary-precision integers: the decimal literal that encodes one, and
//! the conversions into `num_bigint::BigInt`.

use vstd::prelude::*;
use vstd::string::*;
use num_bigint::BigInt;
use std::str::FromStr;

verus! {

/// `num_bigint::BigInt`, as a type whose inside the verifier does not see.
#[verifier::external_type_specification]
#[verifier::external_body]
pub struct ExBigInt(num_bigint::BigInt);

/// The integer that a `BigInt` holds. Nothing is proved of it: the
/// conversions below say which integer comes out of each of them.
pub uninterp spec fn bigint_value(b: BigInt) -> int;

/// Whether `c` is one of the ten decimal digits.
pub open spec fn is_digit(c: char) -> bool {
    48 <= c as u32 && c as u32 <= 57
}

/// The digits of a literal: what follows the sign, or all of it.
pub open spec fn magnitude(s: Seq<char>) -> Seq<char> {
    if s.len() > 0 && s[0] == '-' {
        s.subrange(1, s.len() as int)
    } else {
        s
    }
}

/// A decimal integer literal: an optional `-`, then one or more digits.
pub open spec fn is_decimal_literal(s: Seq<char>) -> bool {
    let d = magnitude(s);
    d.len() > 0 && forall|i: int| 0 <= i < d.len() ==> is_digit(#[trigger] d[i])
}

/// The number that a sequence of digits denotes in base ten.
pub open spec fn digits_value(d: Seq<char>) -> nat
    decreases d.len(),
{
    if d.len() == 0 {
        0
    } else {
        (digits_value(d.drop_last()) * 10 + (d.last() as u32 - 48)) as nat
    }
}

/// The integer that a decimal literal denotes.
pub open spec fn decimal_value(s: Seq<char>) -> int {
    if s.len() > 0 && s[0] == '-' {
        -(digits_value(magnitude(s)) as int)
    } else {
        digits_value(s) as int
    }
}

/// The character of the digit `d`.
pub open spec fn digit_char(d: nat) -> char {
    (48 + d) as char
}

/// The digits of `m` in base ten, without leading zeros.
pub open spec fn digits_of(m: nat) -> Seq<char>
    decreases m,
{
    if m < 10 {
        seq![digit_char(m)]
    } else {
        digits_of(m / 10).push(digit_char(m % 10))
    }
}

/// The decimal literal of `n`: its digits, after a `-` where it is negative.
pub open spec fn decimal_text(n: int) -> Seq<char> {
    if n < 0 {
        seq!['-'] + digits_of((-n) as nat)
    } else {
        digits_of(n as nat)
    }
}

/// The digits of a number are digits, and denote the number.
pub proof fn lemma_digits_of(m: nat)
    ensures
        digits_of(m).len() > 0,
        forall|i: int| 0 <= i < digits_of(m).len() ==> is_digit(#[trigger] digits_of(m)[i]),
        digits_value(digits_of(m)) == m,
    decreases m,
{
    if m < 10 {
        let d = seq![digit_char(m)];
        assert(d.drop_last() =~= Seq::<char>::empty());
        assert(digits_value(d.drop_last()) == 0);
        assert(d.last() == digit_char(m));
        assert(digits_value(d) == m);
    } else {
        lemma_digits_of(m / 10);
        let d = digits_of(m);
        assert(d.drop_last() =~= digits_of(m / 10));
        assert(d.last() == digit_char(m % 10));
        assert(digits_value(d) == (m / 10) * 10 + m % 10);
    }
}

/// The decimal literal of an integer is a literal, and denotes the integer.
pub proof fn lemma_decimal_text(n: int)
    ensures
        is_decimal_literal(decimal_text(n)),
        decimal_value(decimal_text(n)) == n,
{
    if n < 0 {
        let m = (-n) as nat;
        lemma_digits_of(m);
        let s = decimal_text(n);
        assert(s[0] == '-');
        assert(magnitude(s) =~= digits_of(m));
    } else {
        lemma_digits_of(n as nat);
        let s = decimal_text(n);
        assert(is_digit(s[0]));
        assert(s[0] != '-');
        assert(magnitude(s) == s);
    }
}

/// Tells whether `s` is a decimal integer literal.
pub fn is_literal(s: &str) -> (r: bool)
    ensures
        r == is_decimal_literal(s@),
{
    let n = s.unicode_len();
    if n == 0 {
        return false;
    }
    let start: usize = if s.get_char(0) == '-' { 1 } else { 0 };
    if start == n {
        return false;
    }
    let ghost d = magnitude(s@);
    let mut i: usize = start;
    while i < n
        invariant
            start <= i <= n,
            n == s@.len(),
            d == magnitude(s@),
            d.len() == n - start,
            forall|j: int| 0 <= j < d.len() ==> d[j] == s@[j + start],
            forall|j: int| 0 <= j < i - start ==> is_digit(#[trigger] d[j]),
        decreases n - i,
    {
        let c = s.get_char(i);
        let code = c as u32;
        if code < 48 || code > 57 {
            assert(!is_digit(d[i - start]));
            return false;
        }
        i += 1;
    }
    true
}

/// `BigInt::from` on an `i64`: the conversion is exact, so the result holds
/// the same integer.
#[verifier::external_body]
pub(crate) fn bigint_from_i64(n: i64) -> (b: BigInt)
    ensures
        bigint_value(b) == n,
{
    BigInt::from(n)
}

/// `BigInt::from_str`: on an optional `-` followed by one or more decimal
/// digits it succeeds, and the result holds the integer that the literal
/// denotes in base ten.
#[verifier::external_body]
pub(crate) fn bigint_from_literal(s: &str) -> (r: Option<BigInt>)
    requires
        is_decimal_literal(s@),
    ensures
        r is Some,
        bigint_value(r->0) == decimal_value(s@),
{
    BigInt::from_str(s).ok()
}

/// `==` on two `BigInt`s: true exactly when they hold the same integer.
#[verifier::external_body]
pub(crate) fn bigint_eq(a: &BigInt, b: &BigInt) -> (r: bool)
    ensures
        r == (bigint_value(*a) == bigint_value(*b)),
{
    a == b
}

} // verus!
