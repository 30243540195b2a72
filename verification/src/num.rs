//! Numbers as the bits of an IEEE 754 double.
//!
//! A rua number is a double. Everything that only looks at one — comparing,
//! negating, asking whether it is a whole number that can index an array —
//! is settled by its bits, and is done here on the bits.
use vstd::prelude::*;

verus! {

/// The bit that says a number is negative.
pub const SIGN: u64 = 0x8000_0000_0000_0000;

/// One past the largest fraction a double holds.
pub const FRACTION: u64 = 0x10_0000_0000_0000;

/// The magnitude bits of an infinity; anything above is not a number.
pub const INFINITE: u64 = 0x7ff0_0000_0000_0000;

/// Is the sign bit set?
pub open spec fn negative(b: u64) -> bool {
    b >= SIGN
}

/// The bits without the sign.
pub open spec fn magnitude(b: u64) -> u64 {
    if b >= SIGN {
        (b - SIGN) as u64
    } else {
        b
    }
}

/// Not a number: equal to nothing, and neither less nor more than anything.
pub open spec fn is_nan(b: u64) -> bool {
    magnitude(b) > INFINITE
}

/// Where a number stands among the numbers. The two zeros stand together, and
/// between numbers of one sign the bits order as the numbers do.
pub open spec fn order(b: u64) -> int {
    if negative(b) {
        -(magnitude(b) as int)
    } else {
        magnitude(b) as int
    }
}

pub open spec fn equal(a: u64, b: u64) -> bool {
    !is_nan(a) && !is_nan(b) && order(a) == order(b)
}

pub open spec fn less(a: u64, b: u64) -> bool {
    !is_nan(a) && !is_nan(b) && order(a) < order(b)
}

pub open spec fn less_or_equal(a: u64, b: u64) -> bool {
    !is_nan(a) && !is_nan(b) && order(a) <= order(b)
}

fn ranked(b: u64) -> (r: Option<i64>)
    ensures
        r is None <==> is_nan(b),
        r matches Some(k) ==> k == order(b),
{
    let m: u64 = if b >= SIGN {
        b - SIGN
    } else {
        b
    };
    if m > INFINITE {
        return None;
    }
    let k: i64 = m as i64;
    if b >= SIGN {
        Some(-k)
    } else {
        Some(k)
    }
}

/// `a == b`.
pub fn num_eq(a: u64, b: u64) -> (r: bool)
    ensures
        r == equal(a, b),
{
    match (ranked(a), ranked(b)) {
        (Some(x), Some(y)) => x == y,
        _ => false,
    }
}

/// `a < b`.
pub fn num_lt(a: u64, b: u64) -> (r: bool)
    ensures
        r == less(a, b),
{
    match (ranked(a), ranked(b)) {
        (Some(x), Some(y)) => x < y,
        _ => false,
    }
}

/// `a <= b`.
pub fn num_le(a: u64, b: u64) -> (r: bool)
    ensures
        r == less_or_equal(a, b),
{
    match (ranked(a), ranked(b)) {
        (Some(x), Some(y)) => x <= y,
        _ => false,
    }
}

/// `-b`: the sign bit turned over.
pub open spec fn negated(b: u64) -> u64 {
    if negative(b) {
        (b - SIGN) as u64
    } else {
        (b + SIGN) as u64
    }
}

pub fn num_neg(b: u64) -> (r: u64)
    ensures
        r == negated(b),
{
    if b >= SIGN {
        b - SIGN
    } else {
        b + SIGN
    }
}

/// Is this a value that compares unequal to itself?
pub fn num_is_nan(b: u64) -> (r: bool)
    ensures
        r == is_nan(b),
{
    ranked(b).is_none()
}

/// Two to the power `k`.
pub open spec fn two_to(k: nat) -> nat {
    vstd::arithmetic::power2::pow2(k)
}

/// The array index a number denotes, if it denotes one: the number itself
/// when it is whole and in `0..2^64`. Both zeros are index 0, and `2^64`
/// saturates to the last index.
pub open spec fn index_of(b: u64) -> Option<u64> {
    let m = magnitude(b);
    let exp = (m / FRACTION) as int;
    let significand = (FRACTION + m % FRACTION) as int;
    if m == 0 {
        Some(0)
    } else if negative(b) || exp < 1023 {
        None
    } else if exp <= 1075 {
        let unit = two_to((1075 - exp) as nat) as int;
        if significand % unit == 0 {
            Some((significand / unit) as u64)
        } else {
            None
        }
    } else if exp <= 1086 {
        Some((significand * two_to((exp - 1075) as nat)) as u64)
    } else if exp == 1087 && m % FRACTION == 0 {
        Some(u64::MAX)
    } else {
        None
    }
}

pub fn num_index(b: u64) -> (r: Option<u64>)
    ensures
        r == index_of(b),
{
    let m: u64 = if b >= SIGN {
        b - SIGN
    } else {
        b
    };
    if m == 0 {
        return Some(0);
    }
    let exp: u64 = m / FRACTION;
    if b >= SIGN || exp < 1023 {
        return None;
    }
    let significand: u64 = FRACTION + m % FRACTION;
    if exp <= 1075 {
        let shift: u64 = 1075 - exp;
        let unit: u64 = power(shift);
        proof {
            vstd::arithmetic::power2::lemma_pow2_pos(shift as nat);
        }
        if significand % unit == 0 {
            return Some(significand / unit);
        }
        return None;
    }
    if exp <= 1086 {
        let shift: u64 = exp - 1075;
        let unit: u64 = power(shift);
        proof {
            vstd::arithmetic::power2::lemma2_to64();
            if shift < 11 {
                vstd::arithmetic::power2::lemma_pow2_strictly_increases(shift as nat, 11);
            }
            assert(significand * unit <= 0x1f_ffff_ffff_ffff * 0x800) by (nonlinear_arith)
                requires
                    significand <= 0x1f_ffff_ffff_ffff,
                    unit <= 0x800,
            ;
        }
        return Some(significand * unit);
    }
    if exp == 1087 && m % FRACTION == 0 {
        return Some(u64::MAX);
    }
    None
}

fn power(k: u64) -> (r: u64)
    requires
        k < 64,
    ensures
        r == two_to(k as nat),
{
    let mut i: u64 = 0;
    let mut p: u64 = 1;
    proof {
        vstd::arithmetic::power2::lemma2_to64();
    }
    while i < k
        invariant
            i <= k < 64,
            p == two_to(i as nat),
        decreases k - i,
    {
        proof {
            vstd::arithmetic::power2::lemma_pow2_unfold((i + 1) as nat);
            vstd::bits::lemma_u64_pow2_no_overflow((i + 1) as nat);
        }
        p = p * 2;
        i = i + 1;
    }
    p
}

/// The position of the highest set bit of `i`, which is not zero.
pub open spec fn top_bit(i: nat) -> nat
    decreases i,
{
    if i <= 1 {
        0
    } else {
        1 + top_bit(i / 2)
    }
}

/// The bits of an array index as a number: exact below `2^53`, and the
/// nearest double (ties to the even one) above.
pub open spec fn bits_of(i: u64) -> u64 {
    if i == 0 {
        0
    } else {
        let e = top_bit(i as nat) as int;
        let m = if e <= 52 {
            i * two_to((52 - e) as nat)
        } else {
            let unit = two_to((e - 52) as nat) as int;
            let q = i as int / unit;
            let rest = i as int % unit;
            if 2 * rest > unit || (2 * rest == unit && q % 2 == 1) {
                q + 1
            } else {
                q
            }
        };
        ((e + 1022) * FRACTION + m) as u64
    }
}

/// The highest set bit brackets the number.
pub proof fn lemma_top_bit(i: nat)
    requires
        i > 0,
    ensures
        two_to(top_bit(i)) <= i < two_to(top_bit(i) + 1),
    decreases i,
{
    vstd::arithmetic::power2::lemma2_to64();
    if i > 1 {
        lemma_top_bit(i / 2);
        vstd::arithmetic::power2::lemma_pow2_unfold(top_bit(i));
        vstd::arithmetic::power2::lemma_pow2_unfold(top_bit(i) + 1);
    }
}

proof fn lemma_top_bit_of_u64(i: u64)
    requires
        i > 0,
    ensures
        top_bit(i as nat) <= 63,
{
    lemma_top_bit(i as nat);
    let e = top_bit(i as nat);
    if e > 63 {
        vstd::arithmetic::power2::lemma2_to64_rest();
        if e > 64 {
            vstd::arithmetic::power2::lemma_pow2_strictly_increases(64, e);
        }
    }
}

proof fn lemma_two_to_split(a: nat, b: nat)
    ensures
        two_to(a) * two_to(b) == two_to(a + b),
{
    vstd::arithmetic::power2::lemma_pow2_adds(a, b);
}

pub fn num_from_index(i: u64) -> (r: u64)
    ensures
        r == bits_of(i),
{
    if i == 0 {
        return 0;
    }
    proof {
        lemma_top_bit_of_u64(i);
    }
    let mut e: u64 = 0;
    let mut left: u64 = i;
    while left > 1
        invariant
            left >= 1,
            i > 0,
            e + top_bit(left as nat) == top_bit(i as nat),
            top_bit(i as nat) <= 63,
        decreases left,
    {
        left = left / 2;
        e = e + 1;
    }
    proof {
        lemma_top_bit(i as nat);
        vstd::arithmetic::power2::lemma2_to64();
        vstd::arithmetic::power2::lemma2_to64_rest();
    }
    let m: u64;
    if e <= 52 {
        let unit: u64 = power(52 - e);
        proof {
            lemma_two_to_split((e + 1) as nat, (52 - e) as nat);
            let top = two_to((e + 1) as nat) as int;
            assert(i * unit < top * unit) by (nonlinear_arith)
                requires
                    0 <= i < top,
                    unit > 0,
            ;
        }
        m = i * unit;
    } else {
        let unit: u64 = power(e - 52);
        let q: u64 = i / unit;
        let rest: u64 = i % unit;
        proof {
            lemma_two_to_split(53, (e - 52) as nat);
            assert(q < 0x20_0000_0000_0000) by (nonlinear_arith)
                requires
                    i < 0x20_0000_0000_0000 * unit,
                    unit > 0,
                    q == i / unit,
            ;
            if e - 52 < 11 {
                vstd::arithmetic::power2::lemma_pow2_strictly_increases((e - 52) as nat, 11);
            }
        }
        if 2 * rest > unit || (2 * rest == unit && q % 2 == 1) {
            m = q + 1;
        } else {
            m = q;
        }
    }
    (e + 1022) * FRACTION + m
}

/// An index survives the trip through a number and back, as long as doubles
/// are dense enough to hold it.
pub proof fn lemma_index_round_trip(i: u64)
    requires
        i < 0x20_0000_0000_0000,
    ensures
        index_of(bits_of(i)) == Some(i),
{
    if i > 0 {
        lemma_top_bit(i as nat);
        lemma_top_bit_of_u64(i);
        vstd::arithmetic::power2::lemma2_to64();
        vstd::arithmetic::power2::lemma2_to64_rest();
        let e = top_bit(i as nat) as int;
        if e > 52 {
            if e > 53 {
                vstd::arithmetic::power2::lemma_pow2_strictly_increases(53, e as nat);
            }
            assert(false);
        }
        let unit = two_to((52 - e) as nat) as int;
        vstd::arithmetic::power2::lemma_pow2_pos((52 - e) as nat);
        lemma_two_to_split((e + 1) as nat, (52 - e) as nat);
        lemma_two_to_split(e as nat, (52 - e) as nat);
        let low = two_to(e as nat) as int;
        let top = two_to((e + 1) as nat) as int;
        let m = i * unit;
        assert(low * unit <= m < top * unit) by (nonlinear_arith)
            requires
                low <= i < top,
                unit > 0,
                m == i * unit,
        ;
        assert(FRACTION <= m < 2 * FRACTION);
        let b = bits_of(i);
        assert(b == (e + 1023) * FRACTION + (m - FRACTION));
        assert(b as int / FRACTION as int == e + 1023 && b as int % FRACTION as int == m - FRACTION)
            by (nonlinear_arith)
            requires
                b == (e + 1023) * FRACTION + (m - FRACTION),
                0 <= m - FRACTION < FRACTION,
        ;
        assert(magnitude(b) == b);
        assert(m % unit == 0 && m / unit == i) by (nonlinear_arith)
            requires
                m == i * unit,
                unit > 0,
        ;
        assert(1075 - (e + 1023) == 52 - e);
    }
}

/// A positive index below `2^53` is denoted by one number only.
pub proof fn lemma_index_unique(b: u64, i: u64)
    requires
        index_of(b) == Some(i),
        0 < i < 0x20_0000_0000_0000,
    ensures
        b == bits_of(i),
{
    let m = magnitude(b);
    let exp = (m / FRACTION) as int;
    let s = (FRACTION + m % FRACTION) as int;
    vstd::arithmetic::power2::lemma2_to64();
    vstd::arithmetic::power2::lemma2_to64_rest();
    if exp > 1075 {
        if exp <= 1086 {
            let unit = two_to((exp - 1075) as nat) as int;
            if exp > 1076 {
                vstd::arithmetic::power2::lemma_pow2_strictly_increases(1, (exp - 1075) as nat);
            }
            if exp - 1075 < 11 {
                vstd::arithmetic::power2::lemma_pow2_strictly_increases((exp - 1075) as nat, 11);
            }
            assert(s * unit >= 2 * FRACTION && s * unit < 0x1_0000_0000_0000_0000)
                by (nonlinear_arith)
                requires
                    s >= FRACTION,
                    s < 2 * FRACTION,
                    2 <= unit <= 2048,
            ;
            assert(false);
        }
        assert(false);
    }
    let k = (1075 - exp) as nat;
    let unit = two_to(k) as int;
    vstd::arithmetic::power2::lemma_pow2_pos(k);
    vstd::arithmetic::div_mod::lemma_fundamental_div_mod(s, unit);
    assert(0 <= s / unit <= s) by {
        vstd::arithmetic::div_mod::lemma_div_pos_is_pos(s, unit);
        vstd::arithmetic::div_mod::lemma_div_is_ordered_by_denominator(s, 1, unit);
    }
    assert(s == unit * i);
    let e = (52 - k) as nat;
    lemma_two_to_split(e, k);
    lemma_two_to_split(e + 1, k);
    let low = two_to(e) as int;
    let top = two_to(e + 1) as int;
    assert(low <= i < top) by (nonlinear_arith)
        requires
            s == unit * i,
            FRACTION <= s < 2 * FRACTION,
            low * unit == FRACTION,
            top * unit == 2 * FRACTION,
            unit > 0,
    ;
    lemma_top_bit_is(i as nat, e);
    assert(i * unit == s) by (nonlinear_arith)
        requires
            s == unit * i,
    ;
    assert(b == exp * FRACTION + (s - FRACTION)) by (nonlinear_arith)
        requires
            b as int == m as int,
            exp == (m / FRACTION) as int,
            s == FRACTION + m % FRACTION,
    ;
}

proof fn lemma_top_bit_is(i: nat, e: nat)
    requires
        two_to(e) <= i < two_to(e + 1),
    ensures
        top_bit(i) == e,
{
    vstd::arithmetic::power2::lemma_pow2_pos(e);
    lemma_top_bit(i);
    let t = top_bit(i);
    if t < e {
        if t + 1 < e {
            vstd::arithmetic::power2::lemma_pow2_strictly_increases(t + 1, e);
        }
    } else if t > e {
        if e + 1 < t {
            vstd::arithmetic::power2::lemma_pow2_strictly_increases(e + 1, t);
        }
    }
}

/// Whole numbers below this are written without a fraction.
pub const SHORT: u64 = 1_000_000_000_000_000;

/// How a whole number is written; any other number is none.
pub open spec fn whole_text(b: u64) -> Option<Seq<char>> {
    match index_of(magnitude(b)) {
        Some(i) => if i < SHORT {
            Some(
                (if negative(b) && i > 0 {
                    "-"@
                } else {
                    Seq::<char>::empty()
                }) + crate::text::decimal(i as nat),
            )
        } else {
            None
        },
        None => None,
    }
}

/// A number in decimal, if it is whole and not too large for that.
pub fn num_whole_text(b: u64) -> (r: Option<String>)
    ensures
        match r {
            Some(s) => whole_text(b) == Some(s@),
            None => whole_text(b) is None,
        },
{
    let m: u64 = if b >= SIGN {
        b - SIGN
    } else {
        b
    };
    match num_index(m) {
        Some(i) => {
            if i >= SHORT {
                return None;
            }
            let mut out = String::new();
            if b >= SIGN && i > 0 {
                out.append("-");
            }
            crate::text::push_decimal(&mut out, i);
            assert(Some(out@) == whole_text(b));
            Some(out)
        },
        None => None,
    }
}

/// A number cut down to a whole one: nothing below zero, and what is too
/// large becomes the largest.
pub open spec fn truncated(b: u64) -> u64 {
    let m = magnitude(b);
    let exp = (m / FRACTION) as int;
    let significand = (FRACTION + m % FRACTION) as int;
    if negative(b) || is_nan(b) || exp < 1023 {
        0
    } else if exp <= 1075 {
        (significand / two_to((1075 - exp) as nat) as int) as u64
    } else if exp <= 1086 {
        (significand * two_to((exp - 1075) as nat)) as u64
    } else {
        u64::MAX
    }
}

pub fn num_truncated(b: u64) -> (r: u64)
    ensures
        r == truncated(b),
{
    if b >= SIGN || num_is_nan(b) {
        return 0;
    }
    let m: u64 = b;
    let exp: u64 = m / FRACTION;
    if exp < 1023 {
        return 0;
    }
    let significand: u64 = FRACTION + m % FRACTION;
    if exp <= 1075 {
        let unit: u64 = power(1075 - exp);
        proof {
            vstd::arithmetic::power2::lemma_pow2_pos((1075 - exp) as nat);
        }
        return significand / unit;
    }
    if exp <= 1086 {
        let shift: u64 = exp - 1075;
        let unit: u64 = power(shift);
        proof {
            vstd::arithmetic::power2::lemma2_to64();
            if shift < 11 {
                vstd::arithmetic::power2::lemma_pow2_strictly_increases(shift as nat, 11);
            }
            assert(significand * unit <= 0x1f_ffff_ffff_ffff * 0x800) by (nonlinear_arith)
                requires
                    significand <= 0x1f_ffff_ffff_ffff,
                    unit <= 0x800,
            ;
        }
        return significand * unit;
    }
    u64::MAX
}

} // verus!
