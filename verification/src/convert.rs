//! The conversion engine: digit lookup, in-place reversal, the generic
//! division loop for any base, the batched decimal fast path, and the
//! shared entry point that wires sign handling, the zero short-circuit,
//! path selection and reversal together.
//!
//! Digits are produced least-significant first, exactly as repeated
//! division yields them, and a final in-place reversal restores reading
//! order; each step is proved against the model in [`crate::repr`].

use vstd::prelude::*;

use crate::repr::digit_char;
use crate::repr::digits;
use crate::repr::digits_rev;
use crate::repr::lemma_digits_len;
use crate::repr::lemma_digits_reverse;
use crate::repr::lemma_div_shrinks;
use crate::repr::repr;

verus! {

/// Digit lookup: the ASCII character for a digit value below 36,
/// `'0'`–`'9'` for values below ten and `'A'`–`'Z'` above.
pub fn lookup(digit: u64) -> (c: u8)
    requires
        digit < 36,
    ensures
        c == digit_char(digit as nat),
{
    if digit < 10 {
        (48 + digit) as u8
    } else {
        (55 + digit) as u8
    }
}

/// Reverse the first `length` bytes of `string` in place: two indices
/// walk inward from both ends, swapping one pair per step, until they
/// meet or cross. Bytes at and beyond `length` are untouched.
#[verifier::loop_isolation(false)]
pub fn reverse(string: &mut [u8], length: usize)
    requires
        length <= old(string).len(),
    ensures
        final(string)@.len() == old(string)@.len(),
        final(string)@.subrange(0, length as int) == old(string)@.subrange(
            0,
            length as int,
        ).reverse(),
        forall|i: int|
            length <= i < old(string)@.len() ==> final(string)@[i] == old(string)@[i],
{
    let mut start: usize = 0;
    let mut end: usize = length;
    while start + 1 < end
        invariant
            start + end == length,
            start <= end,
            string@.len() == old(string)@.len(),
            forall|i: int| 0 <= i < start ==> string@[i] == old(string)@[length - 1 - i],
            forall|i: int| end <= i < length ==> string@[i] == old(string)@[length - 1 - i],
            forall|i: int| start <= i < end ==> string@[i] == old(string)@[i],
            forall|i: int| length <= i < string@.len() ==> string@[i] == old(string)@[i],
        decreases end - start,
    {
        let x = string[start];
        let y = string[end - 1];
        string[start] = y;
        string[end - 1] = x;
        start = start + 1;
        end = end - 1;
    }
    proof {
        assert(string@.subrange(0, length as int) =~= old(string)@.subrange(
            0,
            length as int,
        ).reverse());
    }
}

/// A nonzero value has at least one digit.
proof fn lemma_digits_rev_pos(v: nat, b: nat)
    requires
        1 <= v,
        2 <= b,
    ensures
        digits_rev(v, b).len() >= 1,
{
}

/// Generic base path: emit the digits of `value` in `base`,
/// least-significant first, into the front of `string` — the classic
/// one-digit-per-division loop, used for every base other than ten.
/// Returns the number of digits written; the buffer beyond them is
/// untouched.
#[verifier::loop_isolation(false)]
pub fn write_digits_rev(value: u64, base: u64, string: &mut [u8]) -> (index: usize)
    requires
        1 <= value,
        2 <= base <= 36,
        old(string).len() >= digits_rev(value as nat, base as nat).len(),
    ensures
        index == digits_rev(value as nat, base as nat).len(),
        final(string)@.len() == old(string)@.len(),
        final(string)@.subrange(0, index as int) == digits_rev(value as nat, base as nat),
        forall|i: int|
            index <= i < old(string)@.len() ==> final(string)@[i] == old(string)@[i],
{
    let ghost whole = digits_rev(value as nat, base as nat);
    let mut val = value;
    let mut index: usize = 0;
    while val != 0
        invariant
            string@.len() == old(string)@.len(),
            index + digits_rev(val as nat, base as nat).len() == whole.len(),
            string@.subrange(0, index as int) + digits_rev(val as nat, base as nat) == whole,
            forall|i: int| index <= i < string@.len() ==> string@[i] == old(string)@[i],
        decreases val,
    {
        proof {
            lemma_digits_rev_pos(val as nat, base as nat);
            lemma_div_shrinks(val as nat, base as nat);
        }
        let ghost prev = string@;
        let rem = val % base;
        string[index] = lookup(rem);
        proof {
            assert(digits_rev(val as nat, base as nat) == seq![
                digit_char((val as nat) % (base as nat)),
            ] + digits_rev((val as nat) / (base as nat), base as nat));
            assert(string@.subrange(0, index + 1) =~= prev.subrange(0, index as int) + seq![
                digit_char((val as nat) % (base as nat)),
            ]);
            assert(string@.subrange(0, index + 1) + digits_rev(
                ((val as nat) / (base as nat)) as nat,
                base as nat,
            ) =~= whole);
        }
        index = index + 1;
        val = val / base;
    }
    proof {
        assert(string@.subrange(0, index as int) =~= whole);
    }
    index
}

/// Splitting a remainder: the digit of `v` at the position weighted
/// `a` is the same whether read from `v % (a * b)` or from `v / a`.
proof fn lemma_split_digit(v: int, a: int, b: int)
    requires
        0 <= v,
        0 < a,
        0 < b,
    ensures
        (v % (a * b)) / a == (v / a) % b,
        (v % (a * b)) % a == v % a,
{
    vstd::arithmetic::div_mod::lemma_breakdown(v, a, b);
    vstd::arithmetic::div_mod::lemma_mod_mod(v, a, b);
    vstd::arithmetic::div_mod::lemma_mod_bound(v, a);
    assert(a * ((v / a) % b) == ((v / a) % b) * a) by (nonlinear_arith);
    vstd::arithmetic::div_mod::lemma_fundamental_div_mod_converse(
        v % (a * b),
        a,
        (v / a) % b,
        v % a,
    );
}

/// The remainder arithmetic behind the decimal fast path: each of the
/// four low decimal digits of `v` can be read off `v % 10000`,
/// `v % 1000` and `v % 100` with one division each.
proof fn lemma_decimal_splits(v: int)
    requires
        0 <= v,
    ensures
        (v % 10000) % 1000 == v % 1000,
        (v % 10000) % 100 == v % 100,
        (v % 10000) % 10 == v % 10,
        (v % 10000) / 1000 == (v / 1000) % 10,
        (v % 1000) % 100 == v % 100,
        (v % 1000) % 10 == v % 10,
        (v % 1000) / 100 == (v / 100) % 10,
        (v % 100) % 10 == v % 10,
        (v % 100) / 10 == (v / 10) % 10,
{
    vstd::arithmetic::div_mod::lemma_mod_mod(v, 1000, 10);
    vstd::arithmetic::div_mod::lemma_mod_mod(v, 100, 100);
    vstd::arithmetic::div_mod::lemma_mod_mod(v, 10, 1000);
    vstd::arithmetic::div_mod::lemma_mod_mod(v, 100, 10);
    vstd::arithmetic::div_mod::lemma_mod_mod(v, 10, 100);
    vstd::arithmetic::div_mod::lemma_mod_mod(v, 10, 10);
    lemma_split_digit(v, 1000, 10);
    lemma_split_digit(v, 100, 10);
    lemma_split_digit(v, 10, 10);
}

/// Four decimal digits at once: for `v` of at least four digits, the
/// digit sequence opens with the four low digits and continues with
/// the digits of `v / 10000`.
proof fn lemma_digits_rev_chunk10(v: nat)
    requires
        1000 <= v,
    ensures
        digits_rev(v, 10) == seq![
            digit_char(v % 10),
            digit_char((v / 10) % 10),
            digit_char((v / 100) % 10),
            digit_char((v / 1000) % 10),
        ] + digits_rev(v / 10000, 10),
{
    let v1 = v / 10;
    let v2 = v / 100;
    let v3 = v / 1000;
    vstd::arithmetic::div_mod::lemma_div_denominator(v as int, 10, 10);
    vstd::arithmetic::div_mod::lemma_div_denominator(v as int, 100, 10);
    vstd::arithmetic::div_mod::lemma_div_denominator(v as int, 1000, 10);
    assert(v1 / 10 == v2 && v2 / 10 == v3 && v3 / 10 == v / 10000);
    vstd::arithmetic::div_mod::lemma_div_is_ordered(1000, v as int, 10);
    vstd::arithmetic::div_mod::lemma_div_is_ordered(100, v1 as int, 10);
    vstd::arithmetic::div_mod::lemma_div_is_ordered(10, v2 as int, 10);
    assert(v1 >= 100 && v2 >= 10 && v3 >= 1);
    assert(digits_rev(v, 10) == seq![digit_char(v % 10)] + digits_rev(v1, 10));
    assert(digits_rev(v1, 10) == seq![digit_char(v1 % 10)] + digits_rev(v2, 10));
    assert(digits_rev(v2, 10) == seq![digit_char(v2 % 10)] + digits_rev(v3, 10));
    assert(digits_rev(v3, 10) == seq![digit_char(v3 % 10)] + digits_rev(v / 10000, 10));
    assert(digits_rev(v, 10) =~= seq![
        digit_char(v % 10),
        digit_char(v1 % 10),
        digit_char(v2 % 10),
        digit_char(v3 % 10),
    ] + digits_rev(v / 10000, 10));
}

/// The digit sequences of values of one to four decimal digits,
/// written out.
proof fn lemma_digits_rev_small10(v: nat)
    requires
        1 <= v < 10000,
    ensures
        1000 <= v ==> digits_rev(v, 10) == seq![
            digit_char(v % 10),
            digit_char((v / 10) % 10),
            digit_char((v / 100) % 10),
            digit_char(v / 1000),
        ],
        100 <= v < 1000 ==> digits_rev(v, 10) == seq![
            digit_char(v % 10),
            digit_char((v / 10) % 10),
            digit_char(v / 100),
        ],
        10 <= v < 100 ==> digits_rev(v, 10) == seq![digit_char(v % 10), digit_char(v / 10)],
        v < 10 ==> digits_rev(v, 10) == seq![digit_char(v)],
{
    let v1 = v / 10;
    let v2 = v / 100;
    let v3 = v / 1000;
    vstd::arithmetic::div_mod::lemma_div_denominator(v as int, 10, 10);
    vstd::arithmetic::div_mod::lemma_div_denominator(v as int, 100, 10);
    vstd::arithmetic::div_mod::lemma_div_denominator(v as int, 1000, 10);
    assert(v1 / 10 == v2 && v2 / 10 == v3 && v3 / 10 == v / 10000);
    vstd::arithmetic::div_mod::lemma_div_is_ordered(v as int, 9999, 10);
    vstd::arithmetic::div_mod::lemma_div_is_ordered(v1 as int, 999, 10);
    vstd::arithmetic::div_mod::lemma_div_is_ordered(v2 as int, 99, 10);
    assert(v1 <= 999 && v2 <= 99 && v3 <= 9);
    if 1000 <= v {
        vstd::arithmetic::div_mod::lemma_small_mod(v3, 10);
        vstd::arithmetic::div_mod::lemma_div_is_ordered(1000, v as int, 10);
        vstd::arithmetic::div_mod::lemma_div_is_ordered(100, v1 as int, 10);
        vstd::arithmetic::div_mod::lemma_div_is_ordered(10, v2 as int, 10);
        lemma_digits_rev_chunk10(v);
        assert(digits_rev(v / 10000, 10) =~= Seq::<u8>::empty());
        assert(digits_rev(v, 10) =~= seq![
            digit_char(v % 10),
            digit_char(v1 % 10),
            digit_char(v2 % 10),
            digit_char(v3),
        ]);
    } else if 100 <= v {
        vstd::arithmetic::div_mod::lemma_div_is_ordered(100, v as int, 10);
        vstd::arithmetic::div_mod::lemma_div_is_ordered(10, v1 as int, 10);
        vstd::arithmetic::div_mod::lemma_basic_div(v as int, 1000);
        vstd::arithmetic::div_mod::lemma_small_mod(v2, 10);
        assert(v1 >= 10 && v2 >= 1 && v3 == 0);
        assert(digits_rev(v, 10) == seq![digit_char(v % 10)] + digits_rev(v1, 10));
        assert(digits_rev(v1, 10) == seq![digit_char(v1 % 10)] + digits_rev(v2, 10));
        assert(digits_rev(v2, 10) == seq![digit_char(v2 % 10)] + digits_rev(v3, 10));
        assert(digits_rev(v3, 10) =~= Seq::<u8>::empty());
        assert(digits_rev(v, 10) =~= seq![
            digit_char(v % 10),
            digit_char(v1 % 10),
            digit_char(v2),
        ]);
    } else if 10 <= v {
        vstd::arithmetic::div_mod::lemma_div_is_ordered(10, v as int, 10);
        vstd::arithmetic::div_mod::lemma_basic_div(v as int, 100);
        vstd::arithmetic::div_mod::lemma_small_mod(v1, 10);
        assert(v1 >= 1 && v2 == 0);
        assert(digits_rev(v, 10) == seq![digit_char(v % 10)] + digits_rev(v1, 10));
        assert(digits_rev(v1, 10) == seq![digit_char(v1 % 10)] + digits_rev(v2, 10));
        assert(digits_rev(v2, 10) =~= Seq::<u8>::empty());
        assert(digits_rev(v, 10) =~= seq![digit_char(v % 10), digit_char(v1)]);
    } else {
        vstd::arithmetic::div_mod::lemma_basic_div(v as int, 10);
        vstd::arithmetic::div_mod::lemma_small_mod(v, 10);
        assert(v1 == 0);
        assert(digits_rev(v, 10) == seq![digit_char(v % 10)] + digits_rev(v1, 10));
        assert(digits_rev(v1, 10) =~= Seq::<u8>::empty());
        assert(digits_rev(v, 10) =~= seq![digit_char(v)]);
    }
}

/// Decimal fast path: emit the base-10 digits of `value`,
/// least-significant first, into the front of `string`. The loop takes
/// four digits per iteration with one division by 10000 and remainder
/// splits against 1000 and 100; a final cascade of range checks writes
/// the at most four remaining digits without leading zeros. The
/// contract is the same as the generic path's at base 10: the two are
/// interchangeable.
#[verifier::loop_isolation(false)]
pub fn write_digits_rev_base10(value: u64, string: &mut [u8]) -> (index: usize)
    requires
        1 <= value,
        old(string).len() >= digits_rev(value as nat, 10).len(),
    ensures
        index == digits_rev(value as nat, 10).len(),
        final(string)@.len() == old(string)@.len(),
        final(string)@.subrange(0, index as int) == digits_rev(value as nat, 10),
        forall|i: int|
            index <= i < old(string)@.len() ==> final(string)@[i] == old(string)@[i],
{
    let ghost whole = digits_rev(value as nat, 10);
    let mut val = value;
    let mut index: usize = 0;
    while val > 9999
        invariant
            1 <= val,
            string@.len() == old(string)@.len(),
            index + digits_rev(val as nat, 10).len() == whole.len(),
            string@.subrange(0, index as int) + digits_rev(val as nat, 10) == whole,
            forall|i: int| index <= i < string@.len() ==> string@[i] == old(string)@[i],
        decreases val,
    {
        proof {
            lemma_digits_rev_chunk10(val as nat);
            lemma_digits_rev_pos((val / 10000) as nat, 10);
            lemma_div_shrinks(val as nat, 10000);
            lemma_decimal_splits(val as int);
            vstd::arithmetic::div_mod::lemma_div_is_ordered(10000, val as int, 10000);
        }
        let ghost prev = string@;
        let rem = val % 10000;
        string[index + 3] = lookup(rem / 1000);
        string[index + 2] = lookup((rem % 1000) / 100);
        string[index + 1] = lookup((rem % 100) / 10);
        string[index] = lookup(rem % 10);
        proof {
            assert(string@.subrange(0, index + 4) =~= prev.subrange(0, index as int) + seq![
                digit_char((val as nat) % 10),
                digit_char(((val as nat) / 10) % 10),
                digit_char(((val as nat) / 100) % 10),
                digit_char(((val as nat) / 1000) % 10),
            ]);
            assert(string@.subrange(0, index + 4) + digits_rev((val / 10000) as nat, 10)
                =~= whole);
        }
        index = index + 4;
        val = val / 10000;
    }
    proof {
        lemma_digits_rev_small10(val as nat);
        lemma_decimal_splits(val as int);
    }
    let ghost prev = string@;
    if val > 999 {
        let rem = val % 1000;
        string[index + 3] = lookup(val / 1000);
        string[index + 2] = lookup(rem / 100);
        string[index + 1] = lookup((rem % 100) / 10);
        string[index] = lookup(rem % 10);
        proof {
            assert(string@.subrange(0, index + 4) =~= prev.subrange(0, index as int) + seq![
                digit_char((val as nat) % 10),
                digit_char(((val as nat) / 10) % 10),
                digit_char(((val as nat) / 100) % 10),
                digit_char((val as nat) / 1000),
            ]);
            assert(string@.subrange(0, index + 4) =~= whole);
        }
        index = index + 4;
    } else if val > 99 {
        let rem = val % 100;
        string[index + 2] = lookup(val / 100);
        string[index + 1] = lookup(rem / 10);
        string[index] = lookup(rem % 10);
        proof {
            assert(string@.subrange(0, index + 3) =~= prev.subrange(0, index as int) + seq![
                digit_char((val as nat) % 10),
                digit_char(((val as nat) / 10) % 10),
                digit_char((val as nat) / 100),
            ]);
            assert(string@.subrange(0, index + 3) =~= whole);
        }
        index = index + 3;
    } else if val > 9 {
        string[index + 1] = lookup(val / 10);
        string[index] = lookup(val % 10);
        proof {
            assert(string@.subrange(0, index + 2) =~= prev.subrange(0, index as int) + seq![
                digit_char((val as nat) % 10),
                digit_char((val as nat) / 10),
            ]);
            assert(string@.subrange(0, index + 2) =~= whole);
        }
        index = index + 2;
    } else {
        string[index] = lookup(val);
        proof {
            assert(string@.subrange(0, index + 1) =~= prev.subrange(0, index as int) + seq![
                digit_char(val as nat),
            ]);
            assert(string@.subrange(0, index + 1) =~= whole);
        }
        index = index + 1;
    }
    index
}

/// The signed value a magnitude and a sign flag stand for.
pub open spec fn signed(mag: nat, negative: bool) -> int {
    if negative {
        -(mag as int)
    } else {
        mag as int
    }
}

/// Shared conversion entry point: write the representation of the
/// value with magnitude `mag` (negated when `negative` is set) in
/// `base` into the front of `string` and return the byte count.
/// Zero short-circuits to a single `'0'`; otherwise the decimal fast
/// path or the generic path emits the digits least-significant first,
/// the sign is appended, and the written range is reversed into
/// reading order. Bytes beyond the returned count are untouched.
pub fn convert_mag(mag: u64, negative: bool, base: u64, string: &mut [u8]) -> (len: usize)
    requires
        2 <= base <= 36,
        negative ==> 1 <= mag,
        old(string).len() >= repr(signed(mag as nat, negative), base as nat).len(),
    ensures
        len == repr(signed(mag as nat, negative), base as nat).len(),
        final(string)@.len() == old(string)@.len(),
        final(string)@.subrange(0, len as int) == repr(signed(mag as nat, negative), base as nat),
        forall|i: int| len <= i < old(string)@.len() ==> final(string)@[i] == old(string)@[i],
{
    let ghost v = signed(mag as nat, negative);
    let ghost goal = repr(v, base as nat);
    if mag == 0 {
        string[0] = 48;
        proof {
            assert(string@.subrange(0, 1) =~= seq![48u8]);
        }
        return 1;
    }
    proof {
        lemma_digits_len(mag as nat, base as nat);
        lemma_digits_reverse(mag as nat, base as nat);
        if negative {
            assert(goal == seq![45u8] + digits(mag as nat, base as nat));
        } else {
            assert(goal == digits(mag as nat, base as nat));
        }
    }
    let ghost entry = string@;
    let mut index = if base == 10 {
        write_digits_rev_base10(mag, string)
    } else {
        write_digits_rev(mag, base, string)
    };
    if negative {
        string[index] = 45;
        proof {
            assert(string@.subrange(0, index + 1) =~= digits_rev(mag as nat, base as nat) + seq![
                45u8,
            ]);
        }
        index = index + 1;
    }
    let ghost written = string@.subrange(0, index as int);
    reverse(string, index);
    proof {
        if negative {
            assert(written.reverse() =~= seq![45u8] + digits_rev(
                mag as nat,
                base as nat,
            ).reverse());
        }
        assert(string@.subrange(0, index as int) == goal);
        assert(forall|i: int|
            index <= i < string@.len() ==> string@[i] == #[trigger] entry[i]);
    }
    index
}

} // verus!
