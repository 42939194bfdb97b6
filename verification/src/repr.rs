//! The mathematical model of a textual number representation.
//!
//! `repr` gives, for any integer value and base, the canonical byte
//! sequence the library promises to write: no leading zeros, uppercase
//! letters for digit values above nine, a single leading `-` for
//! negative values, and exactly `"0"` for zero. `parse_int` is its
//! inverse; the round-trip between the two is proved below.

use vstd::prelude::*;

verus! {

/// The ASCII byte standing for digit value `d`: `'0'`–`'9'` for 0–9,
/// `'A'`–`'Z'` for 10–35.
pub open spec fn digit_char(d: nat) -> u8
    recommends
        d < 36,
{
    if d < 10 {
        (48 + d) as u8
    } else {
        (55 + d) as u8
    }
}

/// The digit value a byte stands for, or -1 for a byte that is no digit.
pub open spec fn digit_val(c: u8) -> int {
    if 48 <= c <= 57 {
        c - 48
    } else if 65 <= c <= 90 {
        c - 55
    } else {
        -1
    }
}

/// The digits of `v` in base `b`, least-significant first: the order in
/// which repeated division naturally produces them. Zero has no digits.
pub open spec fn digits_rev(v: nat, b: nat) -> Seq<u8>
    recommends
        2 <= b <= 36,
    decreases v,
    via digits_rev_decreases
{
    if v == 0 || b < 2 {
        Seq::empty()
    } else {
        seq![digit_char(v % b)] + digits_rev(v / b, b)
    }
}

#[via_fn]
proof fn digits_rev_decreases(v: nat, b: nat) {
    if !(v == 0 || b < 2) {
        lemma_div_shrinks(v, b);
    }
}

/// Dividing a positive value by a base of at least two strictly shrinks
/// it: the digit-extraction recursion terminates.
pub proof fn lemma_div_shrinks(v: nat, b: nat)
    requires
        1 <= v,
        2 <= b,
    ensures
        v / b < v,
{
    assert(v / b < v) by (nonlinear_arith)
        requires
            1 <= v,
            2 <= b,
    ;
}

/// The digits of `v` in base `b`, most-significant first: the canonical
/// reading order, without leading zeros. Zero has no digits.
pub open spec fn digits(v: nat, b: nat) -> Seq<u8>
    recommends
        2 <= b <= 36,
    decreases v,
    via digits_decreases
{
    if v == 0 || b < 2 {
        Seq::empty()
    } else {
        digits(v / b, b) + seq![digit_char(v % b)]
    }
}

#[via_fn]
proof fn digits_decreases(v: nat, b: nat) {
    if !(v == 0 || b < 2) {
        lemma_div_shrinks(v, b);
    }
}

/// The canonical textual representation of `v` in base `b`: `"0"` for
/// zero, otherwise the digits most-significant first, preceded by `-`
/// when `v` is negative.
pub open spec fn repr(v: int, b: nat) -> Seq<u8>
    recommends
        2 <= b <= 36,
{
    if v == 0 {
        seq![48u8]
    } else if v < 0 {
        seq![45u8] + digits((-v) as nat, b)
    } else {
        digits(v as nat, b)
    }
}

/// The value of an unsigned digit string in base `b`, most-significant
/// digit first.
pub open spec fn parse_digits(s: Seq<u8>, b: nat) -> int
    decreases s.len(),
{
    if s.len() == 0 {
        0
    } else {
        parse_digits(s.drop_last(), b) * b + digit_val(s.last())
    }
}

/// The integer a textual representation stands for: a leading `-`
/// negates the value of the remaining digits.
pub open spec fn parse_int(s: Seq<u8>, b: nat) -> int {
    if s.len() > 0 && s[0] == 45u8 {
        -parse_digits(s.subrange(1, s.len() as int), b)
    } else {
        parse_digits(s, b)
    }
}

/// Reading the digits least-significant first and most-significant first
/// yields sequences of the same length: one digit per division step.
pub proof fn lemma_digits_len(v: nat, b: nat)
    requires
        2 <= b,
    ensures
        digits(v, b).len() == digits_rev(v, b).len(),
    decreases v,
{
    if v > 0 {
        lemma_div_shrinks(v, b);
        lemma_digits_len(v / b, b);
    }
}

/// Every byte of a digit sequence is a digit character whose value is
/// below the base: digits never contain a sign, and base 2 never emits
/// anything but `'0'` and `'1'`.
pub proof fn lemma_digits_chars(v: nat, b: nat)
    requires
        2 <= b <= 36,
    ensures
        forall|i: int|
            0 <= i < digits(v, b).len() ==> 0 <= digit_val(#[trigger] digits(v, b)[i]) < b
                && digits(v, b)[i] == digit_char(digit_val(digits(v, b)[i]) as nat),
    decreases v,
{
    if v > 0 {
        lemma_div_shrinks(v, b);
        lemma_digits_chars(v / b, b);
        assert(digits(v, b).last() == digit_char(v % b));
        assert(0 <= digit_val(digit_char(v % b)) < b);
        assert(forall|i: int|
            0 <= i < digits(v / b, b).len() ==> digits(v, b)[i] == digits(v / b, b)[i]);
    }
}

/// Parsing the canonical digit sequence of `v` gives back `v`: the
/// digit-string half of the round trip.
pub proof fn lemma_parse_digits_of(v: nat, b: nat)
    requires
        2 <= b <= 36,
    ensures
        parse_digits(digits(v, b), b) == v,
    decreases v,
{
    if v == 0 {
    } else {
        lemma_div_shrinks(v, b);
        lemma_parse_digits_of(v / b, b);
        let s = digits(v, b);
        assert(s == digits(v / b, b) + seq![digit_char(v % b)]);
        assert(s.len() >= 1);
        assert(s.drop_last() =~= digits(v / b, b));
        assert(s.last() == digit_char(v % b));
        assert(parse_digits(s, b) == parse_digits(digits(v / b, b), b) * b + digit_val(
            digit_char(v % b),
        ));
        assert(digit_val(digit_char(v % b)) == v % b);
        vstd::arithmetic::div_mod::lemma_fundamental_div_mod(v as int, b as int);
        assert((v / b) * b + v % b == v);
    }
}

/// Round trip: parsing the canonical representation of any integer in
/// any base from 2 to 36 yields that integer back exactly.
pub proof fn lemma_round_trip(v: int, b: nat)
    requires
        2 <= b <= 36,
    ensures
        parse_int(repr(v, b), b) == v,
{
    if v == 0 {
        let s = repr(v, b);
        assert(s == seq![48u8]);
        assert(s.len() == 1 && s[0] == 48u8 && s.last() == 48u8);
        assert(s.drop_last() =~= Seq::<u8>::empty());
        assert(parse_digits(Seq::<u8>::empty(), b) == 0);
        assert(parse_digits(s, b) == parse_digits(s.drop_last(), b) * b + digit_val(s.last()));
        assert(parse_digits(s, b) == 0);
    } else if v < 0 {
        let s = repr(v, b);
        assert(s == seq![45u8] + digits((-v) as nat, b));
        assert(s[0] == 45u8);
        assert(s.subrange(1, s.len() as int) =~= digits((-v) as nat, b));
        lemma_parse_digits_of((-v) as nat, b);
    } else {
        let s = repr(v, b);
        assert(s == digits(v as nat, b));
        lemma_parse_digits_of(v as nat, b);
        if s.len() > 0 {
            lemma_digits_chars(v as nat, b);
            assert(digit_val(s[0]) >= 0);
            assert(s[0] != 45u8);
        }
    }
}

/// Sign placement: the representation of a negative value is a single
/// `-` followed by the representation of its absolute value.
pub proof fn lemma_sign_placement(v: int, b: nat)
    requires
        v < 0,
        2 <= b <= 36,
    ensures
        repr(v, b).len() >= 1,
        repr(v, b)[0] == 45u8,
        repr(v, b).subrange(1, repr(v, b).len() as int) == repr(-v, b),
{
    assert(repr(v, b).subrange(1, repr(v, b).len() as int) =~= digits((-v) as nat, b));
}

/// Zero: in every base the representation of zero is the single
/// character `'0'`.
pub proof fn lemma_zero(b: nat)
    requires
        2 <= b <= 36,
    ensures
        repr(0, b) == seq![48u8],
        repr(0, b).len() == 1,
{
}

/// Canonical form: a positive value's representation never starts with
/// a zero digit, so the returned length is the exact character count of
/// the canonical representation.
pub proof fn lemma_no_leading_zero(v: nat, b: nat)
    requires
        1 <= v,
        2 <= b <= 36,
    ensures
        digits(v, b).len() >= 1,
        digits(v, b)[0] != 48u8,
    decreases v,
{
    lemma_div_shrinks(v, b);
    if v / b == 0 {
        assert(digits(0, b) =~= Seq::<u8>::empty());
        assert(digits(v, b) =~= seq![digit_char(v % b)]);
        assert(v % b == v) by (nonlinear_arith)
            requires
                1 <= v,
                2 <= b,
                v / b == 0,
        ;
    } else {
        lemma_no_leading_zero(v / b, b);
        assert(digits(v, b)[0] == digits(v / b, b)[0]);
    }
}

/// Digit count: a positive value's digit sequence in base `b` has
/// exactly `k` digits when `b^(k-1) <= v < b^k`. For base 2 this is
/// the ceiling of the base-2 logarithm of `v + 1`.
pub proof fn lemma_digits_len_bounds(v: nat, b: nat)
    requires
        1 <= v,
        2 <= b <= 36,
    ensures
        digits(v, b).len() >= 1,
        vstd::arithmetic::power::pow(b as int, (digits(v, b).len() - 1) as nat) <= v,
        v < vstd::arithmetic::power::pow(b as int, digits(v, b).len() as nat),
    decreases v,
{
    lemma_div_shrinks(v, b);
    vstd::arithmetic::div_mod::lemma_fundamental_div_mod(v as int, b as int);
    if v / b == 0 {
        assert(digits(0, b) =~= Seq::<u8>::empty());
        assert(digits(v, b).len() == 1);
        vstd::arithmetic::power::lemma_pow0(b as int);
        vstd::arithmetic::power::lemma_pow1(b as int);
        assert(v < b) by (nonlinear_arith)
            requires
                1 <= v,
                2 <= b,
                v / b == 0,
        ;
    } else {
        lemma_digits_len_bounds(v / b, b);
        let k = digits(v / b, b).len();
        assert(digits(v, b).len() == k + 1);
        let pk1 = vstd::arithmetic::power::pow(b as int, (k - 1) as nat);
        let pk = vstd::arithmetic::power::pow(b as int, k as nat);
        assert(pk == b * pk1) by {
            vstd::arithmetic::power::lemma_pow_adds(b as int, 1, (k - 1) as nat);
            vstd::arithmetic::power::lemma_pow1(b as int);
        }
        assert(vstd::arithmetic::power::pow(b as int, (k + 1) as nat) == b * pk) by {
            vstd::arithmetic::power::lemma_pow_adds(b as int, 1, k as nat);
            vstd::arithmetic::power::lemma_pow1(b as int);
        }
        assert(pk <= v) by (nonlinear_arith)
            requires
                pk1 <= v / b,
                pk == b * pk1,
                v == b * (v / b) + v % b,
                0 <= v % b,
                2 <= b,
        ;
        assert(v < b * pk) by (nonlinear_arith)
            requires
                v / b < pk,
                v == b * (v / b) + v % b,
                v % b < b,
                2 <= b,
        ;
    }
}

/// Base boundary, low end: in base 2 every emitted character is `'0'`
/// or `'1'`.
pub proof fn lemma_binary_digits(v: nat)
    ensures
        forall|i: int|
            0 <= i < digits(v, 2).len() ==> #[trigger] digits(v, 2)[i] == 48u8 || digits(
                v,
                2,
            )[i] == 49u8,
{
    lemma_digits_chars(v, 2);
    assert forall|i: int| 0 <= i < digits(v, 2).len() implies #[trigger] digits(v, 2)[i] == 48u8
        || digits(v, 2)[i] == 49u8 by {
        let c = digits(v, 2)[i];
        assert(0 <= digit_val(c) < 2 && c == digit_char(digit_val(c) as nat));
    }
}

/// Base boundary, high end: digit values 10 through 35 are written as
/// the uppercase letters `'A'` through `'Z'`.
pub proof fn lemma_letter_digits(d: nat)
    requires
        10 <= d < 36,
    ensures
        65 <= digit_char(d) <= 90,
{
}

/// Reversing the least-significant-first digit sequence yields the
/// canonical most-significant-first one.
pub proof fn lemma_digits_reverse(v: nat, b: nat)
    requires
        2 <= b,
    ensures
        digits_rev(v, b).reverse() == digits(v, b),
    decreases v,
{
    if v == 0 {
        assert(digits_rev(v, b).reverse() =~= digits(v, b));
    } else {
        lemma_div_shrinks(v, b);
        lemma_digits_reverse(v / b, b);
        lemma_digits_len(v / b, b);
        assert(digits_rev(v, b).reverse() =~= digits(v / b, b) + seq![digit_char(v % b)]);
    }
}

} // verus!

