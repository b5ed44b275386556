//! Single-precision numbers by their bit patterns.
//!
//! The library stores such numbers and compares them; it never computes with
//! them. A pattern is a sign, worth `0x8000_0000`, and a magnitude, and within
//! one sign the magnitudes are in the order of the numbers they stand for.

use vstd::arithmetic::div_mod::{
    lemma_basic_div, lemma_div_is_ordered, lemma_div_is_ordered_by_denominator,
    lemma_div_multiples_vanish, lemma_div_multiples_vanish_quotient, lemma_hoist_over_denominator,
};
use vstd::arithmetic::power2::{
    lemma2_to64, lemma2_to64_rest, lemma_pow2_adds, lemma_pow2_pos, lemma_pow2_strictly_increases, lemma_pow2_unfold,
    pow2,
};
use vstd::prelude::*;

verus! {

/// Positive zero.
pub const ZERO: u32 = 0;

/// One.
pub const ONE: u32 = 0x3f80_0000;

/// The magnitude of the infinities. Anything above is not a number.
pub const INFINITE: u32 = 0x7f80_0000;

/// Where the negative numbers start.
pub const SIGN: u32 = 0x8000_0000;

/// A pattern without its sign.
pub open spec fn size(b: u32) -> int {
    if b < SIGN {
        b as int
    } else {
        b - SIGN
    }
}

/// The pattern stands for no number.
pub open spec fn nan(b: u32) -> bool {
    size(b) > INFINITE
}

/// The pattern stands for a number that is neither infinite.
pub open spec fn finite(b: u32) -> bool {
    size(b) < INFINITE
}

/// An integer per number, in the same order. Both zeros are at `0`.
pub open spec fn rank(b: u32) -> int {
    if b < SIGN {
        size(b)
    } else {
        -size(b)
    }
}

/// `a < b`, false where either is not a number.
pub open spec fn lt(a: u32, b: u32) -> bool {
    !nan(a) && !nan(b) && rank(a) < rank(b)
}

/// `a <= b`, false where either is not a number.
pub open spec fn le(a: u32, b: u32) -> bool {
    !nan(a) && !nan(b) && rank(a) <= rank(b)
}

/// The place of a pattern in the total order of all of them, where a negative
/// zero comes before a positive one and what is not a number comes last on its
/// side.
pub open spec fn place(b: u32) -> int {
    if b < SIGN {
        size(b)
    } else {
        -size(b) - 1
    }
}

/// The smaller of two; the other one where one is not a number.
pub open spec fn lesser(a: u32, b: u32) -> u32 {
    if nan(a) {
        b
    } else if lt(b, a) {
        b
    } else {
        a
    }
}

/// The larger of two; the other one where one is not a number.
pub open spec fn greater(a: u32, b: u32) -> u32 {
    if nan(a) {
        b
    } else if lt(a, b) {
        b
    } else {
        a
    }
}

fn unsigned(b: u32) -> (m: u32)
    ensures
        m == size(b),
{
    if b < SIGN {
        b
    } else {
        b - SIGN
    }
}

/// Whether a pattern stands for no number.
#[must_use]
pub fn is_nan(b: u32) -> (r: bool)
    ensures
        r == nan(b),
{
    unsigned(b) > INFINITE
}

/// Whether a pattern stands for a number that is neither infinite.
#[must_use]
pub fn is_finite(b: u32) -> (r: bool)
    ensures
        r == finite(b),
{
    unsigned(b) < INFINITE
}

/// Whether `a < b`.
#[must_use]
pub fn less(a: u32, b: u32) -> (r: bool)
    ensures
        r == lt(a, b),
{
    if is_nan(a) || is_nan(b) {
        false
    } else if a < SIGN {
        b < SIGN && a < b
    } else if b < SIGN {
        a != SIGN || b != 0
    } else {
        a > b
    }
}

/// Whether `a <= b`.
#[must_use]
pub fn at_most(a: u32, b: u32) -> (r: bool)
    ensures
        r == le(a, b),
{
    !is_nan(a) && !is_nan(b) && !less(b, a)
}

/// Whether `a` comes strictly before `b` in the total order.
#[must_use]
pub fn precedes(a: u32, b: u32) -> (r: bool)
    ensures
        r == (place(a) < place(b)),
{
    if a < SIGN {
        b < SIGN && a < b
    } else {
        b < SIGN || a > b
    }
}

/// The smaller of two numbers.
#[must_use]
pub fn min(a: u32, b: u32) -> (r: u32)
    ensures
        r == lesser(a, b),
{
    if is_nan(a) || less(b, a) {
        b
    } else {
        a
    }
}

/// The larger of two numbers.
#[must_use]
pub fn max(a: u32, b: u32) -> (r: u32)
    ensures
        r == greater(a, b),
{
    if is_nan(a) || less(a, b) {
        b
    } else {
        a
    }
}

/// `x` brought within two bounds. What is not a number stays so.
pub open spec fn within(x: u32, lo: u32, hi: u32) -> u32 {
    if lt(x, lo) {
        lo
    } else if lt(hi, x) {
        hi
    } else {
        x
    }
}

/// `x` brought within two bounds.
#[must_use]
pub fn clamp(x: u32, lo: u32, hi: u32) -> (r: u32)
    ensures
        r == within(x, lo, hi),
{
    if less(x, lo) {
        lo
    } else if less(hi, x) {
        hi
    } else {
        x
    }
}

/// The value of a number in units of the smallest one there is, `2^-149`,
/// without its sign.
pub open spec fn units(b: u32) -> nat {
    let exponent = size(b) / 0x80_0000;
    let fraction = size(b) % 0x80_0000;
    if exponent == 0 {
        fraction as nat
    } else {
        (0x80_0000 + fraction) as nat * pow2((exponent - 1) as nat)
    }
}

/// The whole part of a number: zero for a negative one and for what is not a
/// number, `cap` for one that is larger.
pub open spec fn whole_part(b: u32, cap: nat) -> nat {
    if nan(b) || b >= SIGN {
        0
    } else if b == INFINITE || units(b) / pow2(149) > cap {
        cap
    } else {
        units(b) / pow2(149)
    }
}

/// A number rounded to the nearest whole one, halves upwards: zero for a
/// negative one and for what is not a number, `cap` for one that is larger.
pub open spec fn nearest_whole(b: u32, cap: nat) -> nat {
    if nan(b) || b >= SIGN {
        0
    } else if b == INFINITE || (units(b) + pow2(148)) / pow2(149) > cap {
        cap
    } else {
        (units(b) + pow2(148)) / pow2(149)
    }
}

/// Larger numbers are worth more units.
pub proof fn lemma_units_ordered(a: u32, b: u32)
    requires
        a <= b < SIGN,
    ensures
        units(a) <= units(b),
{
    let ea = (a / 0x80_0000) as nat;
    let eb = (b / 0x80_0000) as nat;
    let fa = (a % 0x80_0000) as nat;
    let fb = (b % 0x80_0000) as nat;
    if ea == eb {
        if ea > 0 {
            let p = pow2((ea - 1) as nat);
            assert((0x80_0000 + fa) * p <= (0x80_0000 + fb) * p) by (nonlinear_arith)
                requires
                    fa <= fb,
                    p >= 0,
            ;
        }
    } else {
        let p = pow2((eb - 1) as nat);
        lemma_pow2_pos((eb - 1) as nat);
        assert((0x80_0000 + fb) * p >= 0x80_0000 * p) by (nonlinear_arith)
            requires
                fb >= 0,
                p > 0,
        ;
        if ea == 0 {
            assert(0x80_0000 * p >= 0x80_0000) by (nonlinear_arith)
                requires
                    p > 0,
            ;
        } else {
            let q = pow2((ea - 1) as nat);
            lemma_pow2_unfold(ea);
            if ea < eb - 1 {
                lemma_pow2_strictly_increases(ea, (eb - 1) as nat);
            }
            assert((0x80_0000 + fa) * q <= 0x80_0000 * (2 * q)) by (nonlinear_arith)
                requires
                    fa <= 0x80_0000,
                    q >= 0,
            ;
            assert(0x80_0000 * (2 * q) <= 0x80_0000 * p) by (nonlinear_arith)
                requires
                    2 * q <= p,
            ;
        }
    }
}

/// Rounding keeps the order.
pub proof fn lemma_nearest_ordered(a: u32, b: u32, cap: nat)
    requires
        le(a, b),
    ensures
        nearest_whole(a, cap) <= nearest_whole(b, cap),
{
    lemma_pow2_pos(149);
    if a < SIGN && b < SIGN {
        lemma_units_ordered(a, b);
        lemma_div_is_ordered(
            (units(a) + pow2(148)) as int,
            (units(b) + pow2(148)) as int,
            pow2(149) as int,
        );
    } else if a < SIGN {
        // Both are zero.
        lemma_pow2_unfold(149);
        lemma_pow2_pos(148);
        lemma_basic_div(pow2(148) as int, pow2(149) as int);
    }
}

/// Numbers no more than `most` apart round to whole ones no more than that
/// apart.
pub proof fn lemma_nearest_apart(a: u32, b: u32, cap: nat, most: nat)
    requires
        finite(a),
        finite(b),
        b >= SIGN || units(b) <= (if a < SIGN {
            units(a)
        } else {
            0
        }) + most * pow2(149),
    ensures
        nearest_whole(b, cap) <= nearest_whole(a, cap) + most,
{
    lemma_pow2_pos(149);
    lemma_pow2_unfold(149);
    if b < SIGN {
        let ua: nat = if a < SIGN {
            units(a)
        } else {
            0
        };
        let top = ua + most * pow2(149) + pow2(148);
        lemma_div_is_ordered((units(b) + pow2(148)) as int, top as int, pow2(149) as int);
        let x = (ua + pow2(148)) as int;
        assert(top as int == pow2(149) as int * most as int + x) by (nonlinear_arith)
            requires
                top == ua + most * pow2(149) + pow2(148),
                x == ua + pow2(148),
        ;
        lemma_hoist_over_denominator(x, most as int, pow2(149));
        assert(most as int * pow2(149) as int == pow2(149) as int * most as int) by (nonlinear_arith);
        if a >= SIGN {
            lemma_basic_div(pow2(148) as int, pow2(149) as int);
        }
    }
}

/// `2^n`.
fn power(n: u32) -> (p: u64)
    requires
        n <= 63,
    ensures
        p == pow2(n as nat),
{
    let mut p: u64 = 1;
    let mut i: u32 = 0;
    proof {
        lemma2_to64();
        lemma_pow2_strictly_increases(63, 64);
    }
    while i < n
        invariant
            i <= n <= 63,
            p == pow2(i as nat),
            pow2(64) == 0x1_0000_0000_0000_0000,
        decreases n - i,
    {
        proof {
            lemma_pow2_unfold((i + 1) as nat);
            if i + 1 < 64 {
                lemma_pow2_strictly_increases((i + 1) as nat, 64);
            }
        }
        p = p * 2;
        i = i + 1;
    }
    p
}

/// Scaling down by `2^149` what was scaled up by less is scaling down by the
/// rest.
proof fn lemma_scale_down(m: nat, up: nat)
    requires
        up <= 149,
    ensures
        (m * pow2(up)) / pow2(149) == m / pow2((149 - up) as nat),
{
    let down = (149 - up) as nat;
    lemma_pow2_adds(up, down);
    lemma_pow2_pos(up);
    lemma_pow2_pos(down);
    lemma_div_multiples_vanish_quotient(pow2(up) as int, m as int, pow2(down) as int);
    assert(m * pow2(up) == pow2(up) * m) by (nonlinear_arith);
}

/// The whole part of a number, at most `usize::MAX`.
#[must_use]
pub fn whole(b: u32) -> (n: usize)
    ensures
        n == whole_part(b, usize::MAX as nat),
{
    if is_nan(b) || b >= SIGN {
        return 0;
    }
    if b == INFINITE {
        return usize::MAX;
    }
    let exponent: u32 = b / 0x80_0000;
    let fraction: u32 = b % 0x80_0000;
    proof {
        lemma2_to64();
        lemma2_to64_rest();
        lemma_pow2_pos(149);
    }
    if exponent < 127 {
        proof {
            if exponent == 0 {
                lemma_pow2_strictly_increases(24, 149);
                lemma_basic_div(fraction as int, pow2(149) as int);
            } else {
                let m = (0x80_0000 + fraction) as nat;
                lemma_scale_down(m, (exponent - 1) as nat);
                let down = (150 - exponent) as nat;
                assert(pow2(24) <= pow2(down)) by {
                    if down > 24 {
                        lemma_pow2_strictly_increases(24, down);
                    }
                }
                lemma_basic_div(m as int, pow2(down) as int);
            }
        }
        return 0;
    }
    let mant: u64 = 0x80_0000 + fraction as u64;
    if exponent <= 150 {
        let d: u64 = power(150 - exponent);
        proof {
            lemma_scale_down(mant as nat, (exponent - 1) as nat);
            lemma_pow2_pos((150 - exponent) as nat);
            lemma_div_is_ordered_by_denominator(mant as int, 1, d as int);
        }
        return (mant / d) as usize;
    }
    proof {
        // mant * 2^(exponent - 1) / 2^149 == mant * 2^(exponent - 150)
        let up = (exponent - 150) as nat;
        lemma_pow2_adds(149, up);
        lemma_pow2_pos(up);
        assert(mant as nat * pow2((exponent - 1) as nat) == pow2(149) * (mant as nat * pow2(up)))
            by (nonlinear_arith)
            requires
                pow2((exponent - 1) as nat) == pow2(149) * pow2(up),
        ;
        lemma_div_multiples_vanish((mant as nat * pow2(up)) as int, pow2(149) as int);
    }
    if exponent - 150 >= 41 {
        proof {
            let up = (exponent - 150) as nat;
            if up > 41 {
                lemma_pow2_strictly_increases(41, up);
            }
            assert(mant * pow2(up) >= 0x80_0000 * pow2(41)) by (nonlinear_arith)
                requires
                    mant >= 0x80_0000,
                    pow2(up) >= pow2(41),
            ;
        }
        return usize::MAX;
    }
    let scale: u64 = power(exponent - 150);
    proof {
        let up = (exponent - 150) as nat;
        lemma_pow2_strictly_increases(up, 41);
        assert(mant * pow2(up) <= 0x100_0000 * 0x200_0000_0000) by (nonlinear_arith)
            requires
                mant < 0x100_0000,
                pow2(up) <= 0x200_0000_0000,
        ;
    }
    let n: u128 = mant as u128 * scale as u128;
    if n > usize::MAX as u128 {
        usize::MAX
    } else {
        n as usize
    }
}

/// A number rounded to the nearest whole one, at most `u16::MAX`.
#[must_use]
pub fn nearest(b: u32) -> (n: u16)
    ensures
        n == nearest_whole(b, u16::MAX as nat),
{
    if is_nan(b) || b >= SIGN {
        return 0;
    }
    if b == INFINITE {
        return u16::MAX;
    }
    let exponent: u32 = b / 0x80_0000;
    let fraction: u32 = b % 0x80_0000;
    proof {
        lemma2_to64();
        lemma_pow2_pos(149);
        lemma_pow2_unfold(149);
    }
    if exponent < 126 {
        proof {
            // Less than one half.
            lemma_pow2_strictly_increases(24, 148);
            if exponent > 0 {
                let m = (0x80_0000 + fraction) as nat;
                let up = (exponent - 1) as nat;
                lemma_pow2_adds(24, up);
                assert(pow2(24 + up) <= pow2(148)) by {
                    if 24 + up < 148 {
                        lemma_pow2_strictly_increases((24 + up) as nat, 148);
                    }
                }
                lemma_pow2_pos(up);
                assert(m * pow2(up) < pow2(24) * pow2(up)) by (nonlinear_arith)
                    requires
                        m < pow2(24),
                        pow2(up) > 0,
                ;
            }
            lemma_basic_div((units(b) + pow2(148)) as int, pow2(149) as int);
        }
        return 0;
    }
    let mant: u64 = 0x80_0000 + fraction as u64;
    if exponent > 142 {
        proof {
            let up = (exponent - 1) as nat;
            let m = mant as nat;
            if up > 142 {
                lemma_pow2_strictly_increases(142, up);
            }
            lemma_pow2_adds(23, 142);
            lemma_pow2_adds(149, 16);
            lemma_pow2_pos(142);
            assert(m * pow2(up) >= pow2(23) * pow2(142)) by (nonlinear_arith)
                requires
                    m >= pow2(23),
                    pow2(up) >= pow2(142),
                    pow2(142) > 0,
            ;
            assert(units(b) + pow2(148) >= pow2(149) * pow2(16));
            lemma_div_is_ordered(
                (pow2(149) * pow2(16)) as int,
                (units(b) + pow2(148)) as int,
                pow2(149) as int,
            );
            lemma_div_multiples_vanish(pow2(16) as int, pow2(149) as int);
        }
        return u16::MAX;
    }
    let half: u64 = power(149 - exponent);
    let d: u64 = power(150 - exponent);
    proof {
        let up = (exponent - 1) as nat;
        let m = mant as nat;
        lemma_pow2_adds(up, (149 - exponent) as nat);
        assert((m + half) * pow2(up) == m * pow2(up) + pow2(148)) by (nonlinear_arith)
            requires
                pow2(148) == pow2(up) * half,
        ;
        lemma_scale_down((m + half) as nat, up);
        lemma_pow2_unfold((150 - exponent) as nat);
        lemma_pow2_pos((149 - exponent) as nat);
        lemma_pow2_strictly_increases((149 - exponent) as nat, 24);
    }
    let n: u64 = (mant + half) / d;
    if n > u16::MAX as u64 {
        u16::MAX
    } else {
        n as u16
    }
}

/// A larger magnitude is worth more units.
proof fn lemma_units_strict(a: u32, b: u32)
    requires
        a < b < SIGN,
    ensures
        units(a) < units(b),
{
    let b1 = (b - 1) as u32;
    lemma_units_ordered(a, b1);
    let e = (b / 0x80_0000) as nat;
    let e1 = (b1 / 0x80_0000) as nat;
    if e == e1 {
        if e > 0 {
            let p = pow2((e - 1) as nat);
            lemma_pow2_pos((e - 1) as nat);
            let f = (b1 % 0x80_0000) as nat;
            assert((0x80_0000 + f) * p < (0x80_0000 + (f + 1)) * p) by (nonlinear_arith)
                requires
                    p > 0,
            ;
        }
    } else {
        assert(e == e1 + 1 && b % 0x80_0000 == 0 && b1 % 0x80_0000 == 0x7f_ffff);
        let p = pow2((e - 1) as nat);
        lemma_pow2_pos((e - 1) as nat);
        if e1 == 0 {
            assert(0x80_0000 * p >= 0x80_0000) by (nonlinear_arith)
                requires
                    p > 0,
            ;
        } else {
            let q = pow2((e1 - 1) as nat);
            lemma_pow2_pos((e1 - 1) as nat);
            lemma_pow2_unfold(e1);
            assert((0x80_0000 + 0x7f_ffff) * q < 0x80_0000 * (2 * q)) by (nonlinear_arith)
                requires
                    q > 0,
            ;
        }
    }
}

/// The value of a finite number in units of the smallest one there is.
pub open spec fn value(b: u32) -> int {
    if b < SIGN {
        units(b) as int
    } else {
        -(units((b - SIGN) as u32) as int)
    }
}

/// Patterns compare as the numbers they stand for.
pub proof fn law_patterns_compare_as_numbers(a: u32, b: u32)
    requires
        finite(a),
        finite(b),
    ensures
        lt(a, b) <==> value(a) < value(b),
        le(a, b) <==> value(a) <= value(b),
        value(b) == 0 <==> b == 0 || b == 0x8000_0000,
{
    let m = size(a) as u32;
    let n = size(b) as u32;
    if m < n {
        lemma_units_strict(m, n);
    } else if n < m {
        lemma_units_strict(n, m);
    }
    if m > 0 {
        lemma_units_strict(0, m);
    }
    if n > 0 {
        lemma_units_strict(0, n);
    }
}

/// A pattern is an exponent of eight bits and a fraction of 23. What has the
/// largest exponent is an infinity or no number at all, and what is no number
/// compares with nothing.
pub proof fn law_the_largest_exponent_is_no_finite_number(b: u32, other: u32)
    ensures
        finite(b) <==> b / 0x80_0000 % 256 != 255,
        nan(b) <==> b / 0x80_0000 % 256 == 255 && b % 0x80_0000 != 0,
        nan(b) ==> !lt(b, other) && !lt(other, b) && !le(b, other) && !le(other, b),
        !nan(b) && !nan(other) ==> (lt(b, other) <==> !le(other, b)),
{
}

/// One is worth one, a step of the exponent doubles a number, and a step of the
/// fraction adds the same to each number of one exponent.
pub proof fn law_what_a_pattern_is_worth(b: u32)
    requires
        0x80_0000 <= b < INFINITE - 0x80_0000,
    ensures
        units(ONE) == pow2(149),
        units((b + 0x80_0000) as u32) == 2 * units(b),
        b % 0x80_0000 < 0x7f_ffff ==> 0x80_0000 * (units((b + 1) as u32) - units(b)) == units(
            (b - b % 0x80_0000) as u32,
        ),
{
    let e = (b / 0x80_0000) as nat;
    let f = (b % 0x80_0000) as nat;
    let p = pow2((e - 1) as nat);
    lemma_pow2_unfold(e);
    assert((0x80_0000 + f) * (2 * p) == 2 * ((0x80_0000 + f) * p)) by (nonlinear_arith);
    assert((0x80_0000 + (f + 1)) * p == (0x80_0000 + f) * p + p) by (nonlinear_arith);
    lemma_pow2_adds(23, 126);
    lemma2_to64();
    assert(ONE as int / 0x80_0000 == 127 && ONE as int % 0x80_0000 == 0);
}

/// Of two numbers the lesser is the one that is no more than the other, and the
/// greater the one that is no less; what is no number yields to what is one.
pub proof fn law_the_lesser_and_the_greater(a: u32, b: u32)
    ensures
        nan(a) ==> lesser(a, b) == b && greater(a, b) == b,
        !nan(a) && nan(b) ==> lesser(a, b) == a && greater(a, b) == a,
        !nan(a) && !nan(b) ==> {
            &&& lesser(a, b) == a || lesser(a, b) == b
            &&& greater(a, b) == a || greater(a, b) == b
            &&& le(lesser(a, b), a) && le(lesser(a, b), b)
            &&& le(a, greater(a, b)) && le(b, greater(a, b))
        },
{
}

/// What is brought within two bounds lies between them, is left alone where it
/// lay there already, and else ends at the bound it was beyond.
pub proof fn law_bounds_are_kept(x: u32, lo: u32, hi: u32)
    requires
        le(lo, hi),
        !nan(x),
    ensures
        le(lo, within(x, lo, hi)),
        le(within(x, lo, hi), hi),
        le(lo, x) && le(x, hi) ==> within(x, lo, hi) == x,
        lt(x, lo) ==> within(x, lo, hi) == lo,
        lt(hi, x) ==> within(x, lo, hi) == hi,
{
}

/// The whole part is the most whole ones that fit, and rounding ends no more
/// than a half away, upwards from exactly a half.
pub proof fn law_whole_parts_and_rounding(b: u32, cap: nat)
    requires
        b < INFINITE,
    ensures
        whole_part(b, cap) <= cap,
        whole_part(b, cap) * pow2(149) <= units(b),
        whole_part(b, cap) < cap ==> units(b) < (whole_part(b, cap) + 1) * pow2(149),
        nearest_whole(b, cap) <= cap,
        2 * nearest_whole(b, cap) * pow2(148) <= units(b) + pow2(148),
        nearest_whole(b, cap) < cap ==> units(b) + pow2(148) < 2 * (nearest_whole(b, cap) + 1)
            * pow2(148),
{
    let p = pow2(149);
    let h = pow2(148);
    lemma_pow2_pos(149);
    lemma_pow2_unfold(149);
    let u = units(b);
    vstd::arithmetic::div_mod::lemma_fundamental_div_mod(u as int, p as int);
    vstd::arithmetic::div_mod::lemma_mod_bound(u as int, p as int);
    vstd::arithmetic::div_mod::lemma_fundamental_div_mod((u + h) as int, p as int);
    vstd::arithmetic::div_mod::lemma_mod_bound((u + h) as int, p as int);
    vstd::arithmetic::div_mod::lemma_div_pos_is_pos(u as int, p as int);
    vstd::arithmetic::div_mod::lemma_div_pos_is_pos((u + h) as int, p as int);
    let q = u / p;
    let r = (u + h) / p;
    let a = whole_part(b, cap);
    let c = nearest_whole(b, cap);
    assert(a * p <= q * p) by (nonlinear_arith)
        requires
            a <= q,
    ;
    assert(c * p <= r * p) by (nonlinear_arith)
        requires
            c <= r,
    ;
    assert(2 * c * h == c * p) by (nonlinear_arith)
        requires
            p == 2 * h,
    ;
    assert(p * q == q * p && p * r == r * p && (q + 1) * p == q * p + p) by (nonlinear_arith);
    assert(2 * (r + 1) * h == r * p + p) by (nonlinear_arith)
        requires
            p == 2 * h,
    ;
}

/// No number is nearer to `num / den` than the one the pattern stands for.
pub open spec fn stands_for(b: u32, num: nat, den: nat) -> bool {
    let unit = pow2(((b / 0x80_0000) as int - 1) as nat);
    &&& den > 0
    &&& 0x80_0000 <= b < INFINITE
    &&& 2 * (den * units(b) - num * pow2(149)) <= den * unit
    &&& 2 * (num * pow2(149) - den * units(b)) <= den * unit
}

/// A pattern stands for a fraction where its digits do.
pub proof fn lemma_stands_for(b: u32, num: nat, den: nat)
    requires
        den > 0,
        0x80_0000 <= b < INFINITE,
        b / 0x80_0000 <= 150,
        ({
            let k = pow2((150 - (b / 0x80_0000) as int) as nat);
            let m = (0x80_0000 + b % 0x80_0000) as nat;
            -(den as int) <= 2 * (den * m - num * k) <= den
        }),
    ensures
        stands_for(b, num, den),
{
    let e = (b / 0x80_0000) as nat;
    let p = pow2((e - 1) as nat);
    let k = pow2((150 - e) as nat);
    let m = (0x80_0000 + b % 0x80_0000) as nat;
    lemma_pow2_adds((e - 1) as nat, (150 - e) as nat);
    lemma_pow2_pos((e - 1) as nat);
    assert(pow2(149) == p * k);
    let d = den * m - num * k;
    assert(den * (m * p) - num * (p * k) == d * p) by (nonlinear_arith)
        requires
            d == den * m - num * k,
    ;
    assert(2 * (d * p) <= den * p && -(2 * (d * p)) <= den * p) by (nonlinear_arith)
        requires
            -(den as int) <= 2 * d <= den,
            p > 0,
    ;
}

/// Nothing whole is left of a negative number or of what is no number, and an
/// infinity is as large as it may get.
pub proof fn law_nothing_whole_below_zero(b: u32, cap: nat)
    ensures
        b >= 0x8000_0000 || b > 0x7f80_0000 ==> whole_part(b, cap) == 0 && nearest_whole(b, cap)
            == 0,
        b == 0x7f80_0000 ==> whole_part(b, cap) == cap && nearest_whole(b, cap) == cap,
{
}

/// The total order agrees with that of the numbers, tells any two patterns apart,
/// puts a negative zero before a positive one, and puts what is no number last on
/// its side.
pub proof fn law_the_total_order(a: u32, b: u32)
    ensures
        lt(a, b) ==> place(a) < place(b),
        place(a) == place(b) ==> a == b,
        place(0x8000_0000) < place(0),
        nan(a) && a < 0x8000_0000 && !nan(b) ==> place(b) < place(a),
        nan(a) && a >= 0x8000_0000 && !nan(b) ==> place(a) < place(b),
{
}

} // verus!
