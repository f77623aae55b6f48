//! Samples and parameter values as IEEE-754 single-precision bit patterns.
//!
//! Comparing, clamping, rounding and finding peaks need no arithmetic on the
//! numbers themselves, so they are done here on the patterns. What a pattern
//! stands for is given by [`value`], exactly, as a whole number of units of 2^-149.
use vstd::prelude::*;

verus! {

/// The pattern of 1.0, full scale.
pub const ONE: u32 = 0x3f80_0000;

/// The pattern of -1.0.
pub const MINUS_ONE: u32 = 0xbf80_0000;

/// The pattern of positive zero.
pub const ZERO: u32 = 0;

/// The pattern without its sign bit.
pub open spec fn magnitude(b: u32) -> int {
    b as int % 0x8000_0000
}

/// Whether the sign bit is set.
pub open spec fn negative(b: u32) -> bool {
    b >= 0x8000_0000
}

/// Neither infinite nor not-a-number.
pub open spec fn finite(b: u32) -> bool {
    magnitude(b) < 0x7f80_0000
}

/// Not a number.
pub open spec fn nan(b: u32) -> bool {
    magnitude(b) > 0x7f80_0000
}

/// How many units of 2^-149 a pattern with magnitude `m` stands for. The formula is
/// that of the finite numbers; it places infinity above all of them.
pub open spec fn scaled(m: int) -> int {
    let exponent = m / 0x80_0000;
    let fraction = m % 0x80_0000;
    if exponent == 0 {
        fraction
    } else {
        (0x80_0000 + fraction) * vstd::arithmetic::power2::pow2((exponent - 1) as nat)
    }
}

/// The number that a pattern stands for, in units of 2^-149.
pub open spec fn value(b: u32) -> int {
    if negative(b) {
        -scaled(magnitude(b))
    } else {
        scaled(magnitude(b))
    }
}

/// The number 1.0 in units of 2^-149.
pub open spec fn unit() -> int {
    vstd::arithmetic::power2::pow2(149) as int
}

/// `a < b` as numbers; false if either is not a number.
pub open spec fn lt(a: u32, b: u32) -> bool {
    !nan(a) && !nan(b) && value(a) < value(b)
}

/// `v` moved into the range from `min` to `max`.
pub open spec fn clamped(v: u32, min: u32, max: u32) -> u32 {
    if lt(v, min) {
        min
    } else if lt(max, v) {
        max
    } else {
        v
    }
}

/// A sample that may enter the graph: anything that is not finite becomes silence.
pub open spec fn cleaned(b: u32) -> u32 {
    if finite(b) {
        b
    } else {
        ZERO
    }
}

/// A sample that may leave for the converter: finite, and no louder than full scale.
pub open spec fn limited(b: u32) -> u32 {
    if !finite(b) {
        ZERO
    } else if value(b) > unit() {
        ONE
    } else if value(b) < -unit() {
        MINUS_ONE
    } else {
        b
    }
}

/// The loudest magnitude in `s`, as a pattern; what is not a number does not count.
pub open spec fn peak_of(s: Seq<u32>) -> u32
    decreases s.len(),
{
    if s.len() == 0 {
        ZERO
    } else {
        louder_of(peak_of(s.drop_last()), s.last())
    }
}

/// The louder of a peak and the magnitude of a sample.
pub open spec fn louder_of(peak: u32, b: u32) -> u32 {
    if !nan(b) && magnitude(b) > peak {
        magnitude(b) as u32
    } else {
        peak
    }
}

/// A number without sign, rounded to a whole number, halves away from zero: the last
/// `150 - exponent` bits of the pattern are the part behind the point.
pub open spec fn rounded_magnitude(m: int) -> int {
    let exponent = m / 0x80_0000;
    if exponent < 126 {
        0
    } else if exponent == 126 {
        ONE as int
    } else if exponent >= 150 {
        m
    } else {
        let step = vstd::arithmetic::power2::pow2((150 - exponent) as nat) as int;
        (m + step / 2) / step * step
    }
}

/// A number rounded to a whole number, halves away from zero.
pub open spec fn rounded(b: u32) -> u32 {
    (if negative(b) {
        rounded_magnitude(magnitude(b)) + 0x8000_0000
    } else {
        rounded_magnitude(magnitude(b))
    }) as u32
}

/// A larger pattern without sign stands for a larger number.
pub proof fn scaled_is_monotone(m1: int, m2: int)
    requires
        0 <= m1 < m2,
    ensures
        scaled(m1) < scaled(m2),
{
    broadcast use vstd::arithmetic::power2::lemma_pow2_pos;

    let e1 = m1 / 0x80_0000;
    let e2 = m2 / 0x80_0000;
    let f1 = m1 % 0x80_0000;
    let f2 = m2 % 0x80_0000;
    if e1 == e2 {
        assert(f1 < f2);
        if e1 != 0 {
            let p = vstd::arithmetic::power2::pow2((e1 - 1) as nat) as int;
            assert((0x80_0000 + f1) * p < (0x80_0000 + f2) * p) by (nonlinear_arith)
                requires
                    p > 0,
                    f1 < f2,
            ;
        }
    } else {
        assert(e1 < e2);
        let p2 = vstd::arithmetic::power2::pow2((e2 - 1) as nat) as int;
        let top = vstd::arithmetic::power2::pow2(e1 as nat) as int;
        if e1 < e2 - 1 {
            vstd::arithmetic::power2::lemma_pow2_strictly_increases(e1 as nat, (e2 - 1) as nat);
        }
        assert(top <= p2);
        assert(scaled(m1) < 0x80_0000 * top) by {
            if e1 == 0 {
                vstd::arithmetic::power2::lemma2_to64();
            } else {
                vstd::arithmetic::power2::lemma_pow2_unfold(e1 as nat);
                let p1 = vstd::arithmetic::power2::pow2((e1 - 1) as nat) as int;
                assert((0x80_0000 + f1) * p1 < 0x80_0000 * (2 * p1)) by (nonlinear_arith)
                    requires
                        p1 > 0,
                        f1 < 0x80_0000,
                ;
            }
        }
        assert(0x80_0000 * top <= (0x80_0000 + f2) * p2) by (nonlinear_arith)
            requires
                0 < top <= p2,
                f2 >= 0,
        ;
    }
}

/// Patterns without sign are ordered as the numbers they stand for.
pub proof fn magnitude_orders_values(m1: int, m2: int)
    requires
        0 <= m1,
        0 <= m2,
    ensures
        m1 < m2 <==> scaled(m1) < scaled(m2),
        m1 == m2 <==> scaled(m1) == scaled(m2),
        scaled(m1) >= 0,
        m1 == 0 <==> scaled(m1) == 0,
{
    if m1 < m2 {
        scaled_is_monotone(m1, m2);
    } else if m2 < m1 {
        scaled_is_monotone(m2, m1);
    }
    if m1 > 0 {
        scaled_is_monotone(0, m1);
    }
}

/// 1.0 is the unit of 2^149 steps.
pub proof fn one_is_the_unit()
    ensures
        scaled(ONE as int) == unit(),
        value(ONE) == unit(),
        value(MINUS_ONE) == -unit(),
{
    vstd::arithmetic::power2::lemma2_to64();
    vstd::arithmetic::power2::lemma_pow2_adds(23, 126);
}

/// Rounding gives the nearest whole number, and of two that are equally near the one
/// that is further from zero.
pub proof fn rounding_is_to_nearest(m: int)
    requires
        0 <= m < 0x7f80_0000,
    ensures
        0 <= rounded_magnitude(m) < 0x7f80_0000,
        scaled(rounded_magnitude(m)) == (scaled(m) + unit() / 2) / unit() * unit(),
{
    broadcast use vstd::arithmetic::power2::lemma_pow2_pos;

    vstd::arithmetic::power2::lemma2_to64();
    vstd::arithmetic::power2::lemma_pow2_unfold(149);
    let u = unit();
    let half = vstd::arithmetic::power2::pow2(148) as int;
    assert(u == 2 * half && u / 2 == half);
    let e = m / 0x80_0000;
    let f = m % 0x80_0000;
    one_is_the_unit();
    let half_pattern = 0x3f00_0000int;
    assert(scaled(half_pattern) == half) by {
        vstd::arithmetic::power2::lemma_pow2_adds(23, 125);
    }
    if e < 126 {
        scaled_is_monotone(m, half_pattern);
        magnitude_orders_values(m, 0);
        assert((scaled(m) + half) / u == 0) by (nonlinear_arith)
            requires
                0 <= scaled(m) < half,
                u == 2 * half,
        ;
        assert(0int * u == 0) by (nonlinear_arith);
    } else if e == 126 {
        scaled_is_monotone(m, ONE as int);
        magnitude_orders_values(half_pattern, m);
        magnitude_orders_values(m, half_pattern);
        assert((scaled(m) + half) / u == 1) by (nonlinear_arith)
            requires
                half <= scaled(m) < u,
                u == 2 * half,
                half > 0,
        ;
    } else if e >= 150 {
        let q = vstd::arithmetic::power2::pow2((e - 150) as nat) as int;
        vstd::arithmetic::power2::lemma_pow2_adds(149, (e - 150) as nat);
        let w = (0x80_0000 + f) * q;
        assert(scaled(m) == w * u) by (nonlinear_arith)
            requires
                scaled(m) == (0x80_0000 + f) * (u * q),
                w == (0x80_0000 + f) * q,
        ;
        assert((w * u + half) / u == w) by (nonlinear_arith)
            requires
                u == 2 * half,
                half > 0,
        ;
    } else {
        let k = (150 - e) as nat;
        let step = vstd::arithmetic::power2::pow2(k) as int;
        let p = vstd::arithmetic::power2::pow2((e - 1) as nat) as int;
        vstd::arithmetic::power2::lemma_pow2_adds(k, (e - 1) as nat);
        vstd::arithmetic::power2::lemma_pow2_adds(k, (23 - k) as nat);
        vstd::arithmetic::power2::lemma_pow2_unfold(k);
        vstd::arithmetic::power2::lemma_pow2_unfold(e as nat);
        let h = vstd::arithmetic::power2::pow2((k - 1) as nat) as int;
        let c = vstd::arithmetic::power2::pow2((23 - k) as nat) as int;
        assert(u == step * p && step == 2 * h && 0x80_0000 == step * c);
        let mant = 0x80_0000 + f;
        let q = (mant + h) / step;
        vstd::arithmetic::div_mod::lemma_fundamental_div_mod(mant + h, step);
        vstd::arithmetic::div_mod::lemma_mod_bound(mant + h, step);
        assert(step * q == q * step) by (nonlinear_arith);
        assert(step * (2 * c) == 0x100_0000) by (nonlinear_arith)
            requires
                0x80_0000 == step * c,
        ;
        // The quotient in units of 2^-149 is the quotient of the significands.
        assert((mant * p + half) / u == q) by {
            assert(half == h * p) by (nonlinear_arith)
                requires
                    2 * half == step * p,
                    step == 2 * h,
            ;
            let r = (mant + h) % step;
            assert(mant * p + half == q * u + r * p) by (nonlinear_arith)
                requires
                    half == h * p,
                    mant + h == q * step + r,
                    u == step * p,
            ;
            assert(0 <= r * p < u) by (nonlinear_arith)
                requires
                    0 <= r < step,
                    p > 0,
                    u == step * p,
            ;
            vstd::arithmetic::div_mod::lemma_fundamental_div_mod_converse(
                mant * p + half,
                u,
                q,
                r * p,
            );
        }
        // The exponent field is a multiple of the step, so it passes through.
        let rest = (e - 1) * c;
        assert((e - 1) * 0x80_0000 == rest * step) by (nonlinear_arith)
            requires
                0x80_0000 == step * c,
                rest == (e - 1) * c,
        ;
        assert((m + h) / step == rest + q) by {
            let r = (mant + h) % step;
            assert(m + h == (rest + q) * step + r) by (nonlinear_arith)
                requires
                    m == (e - 1) * 0x80_0000 + mant,
                    (e - 1) * 0x80_0000 == rest * step,
                    mant + h == q * step + r,
            ;
            vstd::arithmetic::div_mod::lemma_fundamental_div_mod_converse(
                m + h,
                step,
                rest + q,
                r,
            );
        }
        let out = rounded_magnitude(m);
        assert(step / 2 == h);
        assert(out == (e - 1) * 0x80_0000 + q * step) by (nonlinear_arith)
            requires
                out == (rest + q) * step,
                (e - 1) * 0x80_0000 == rest * step,
        ;
        assert(0x80_0000 <= q * step <= 0x100_0000) by {
            assert(c <= q) by (nonlinear_arith)
                requires
                    q == (mant + h) / step,
                    mant + h >= step * c,
                    step > 0,
            ;
            assert(q <= 2 * c) by (nonlinear_arith)
                requires
                    q == (mant + h) / step,
                    mant + h < step * (2 * c) + step,
                    step > 0,
            ;
            assert(step * c <= q * step <= step * (2 * c)) by (nonlinear_arith)
                requires
                    c <= q <= 2 * c,
                    step > 0,
            ;
        }
        if q * step < 0x100_0000 {
            assert(out / 0x80_0000 == e && out % 0x80_0000 == q * step - 0x80_0000);
        } else {
            assert(out / 0x80_0000 == e + 1 && out % 0x80_0000 == 0);
        }
        assert((q * step) * p == q * u) by (nonlinear_arith)
            requires
                u == step * p,
        ;
        assert(scaled(out) == (q * step) * p) by {
            if q * step == 0x100_0000 {
                assert(0x80_0000 * (2 * p) == 0x100_0000 * p);
            }
        }
    }
}

/// What leaves the limiter is finite and no louder than full scale, and what was so
/// already is left alone.
pub proof fn limiter_is_safe(b: u32)
    ensures
        finite(limited(b)),
        -unit() <= value(limited(b)) <= unit(),
        finite(b) && -unit() <= value(b) <= unit() ==> limited(b) == b,
        limited(limited(b)) == limited(b),
{
    one_is_the_unit();
    vstd::arithmetic::power2::lemma_pow2_pos(149);
}

/// A peak is at least as loud as every sample that is a number, and unless all is
/// silent it is the magnitude of one of them.
pub proof fn peak_is_the_loudest(s: Seq<u32>)
    ensures
        0 <= peak_of(s) <= 0x7f80_0000,
        forall|i: int|
            0 <= i < s.len() && !nan(#[trigger] s[i]) ==> scaled(magnitude(s[i])) <= value(
                peak_of(s),
            ),
        peak_of(s) == ZERO || exists|i: int|
            0 <= i < s.len() && !nan(#[trigger] s[i]) && magnitude(s[i]) == peak_of(s),
    decreases s.len(),
{
    if s.len() > 0 {
        let t = s.drop_last();
        peak_is_the_loudest(t);
        magnitude_orders_values(peak_of(t) as int, peak_of(s) as int);
        assert forall|i: int| 0 <= i < s.len() && !nan(#[trigger] s[i]) implies scaled(
            magnitude(s[i]),
        ) <= value(peak_of(s)) by {
            magnitude_orders_values(magnitude(s[i]), peak_of(s) as int);
            if i < t.len() {
                assert(t[i] == s[i]);
            }
        }
        if peak_of(s) == peak_of(t) && peak_of(t) != ZERO {
            let i = choose|i: int|
                0 <= i < t.len() && !nan(#[trigger] t[i]) && magnitude(t[i]) == peak_of(t);
            assert(s[i] == t[i]);
        } else if peak_of(s) != ZERO {
            assert(s[s.len() - 1] == s.last());
        }
    }
}

/// The number is neither infinite nor not-a-number.
pub fn is_finite(b: u32) -> (r: bool)
    ensures
        r == finite(b),
{
    b % 0x8000_0000 < 0x7f80_0000
}

/// `a < b` as numbers.
pub fn less(a: u32, b: u32) -> (r: bool)
    ensures
        r == lt(a, b),
{
    let ma: u32 = a % 0x8000_0000;
    let mb: u32 = b % 0x8000_0000;
    proof {
        magnitude_orders_values(ma as int, mb as int);
        magnitude_orders_values(mb as int, ma as int);
    }
    if ma > 0x7f80_0000 || mb > 0x7f80_0000 {
        false
    } else if a >= 0x8000_0000 {
        if b >= 0x8000_0000 {
            mb < ma
        } else {
            ma > 0 || mb > 0
        }
    } else if b >= 0x8000_0000 {
        false
    } else {
        ma < mb
    }
}

/// Moves a number into a range.
pub fn clamp(v: u32, min: u32, max: u32) -> (r: u32)
    requires
        !nan(min),
        !nan(max),
        value(min) <= value(max),
    ensures
        r == clamped(v, min, max),
{
    if less(v, min) {
        min
    } else if less(max, v) {
        max
    } else {
        v
    }
}

/// Rounds to a whole number, halves away from zero.
pub fn round(b: u32) -> (r: u32)
    ensures
        r == rounded(b),
        !finite(b) ==> r == b,
        finite(b) ==> finite(r) && negative(r) == negative(b) && scaled(magnitude(r)) == (scaled(
            magnitude(b),
        ) + unit() / 2) / unit() * unit(),
{
    let m: u32 = b % 0x8000_0000;
    let e: u32 = m / 0x80_0000;
    proof {
        if finite(b) {
            rounding_is_to_nearest(m as int);
        }
    }
    let rm: u32 = if e < 126 {
        0
    } else if e == 126 {
        ONE
    } else if e >= 150 {
        m
    } else {
        let k: u32 = 150 - e;
        proof {
            vstd::arithmetic::power2::lemma2_to64();
            if k < 23 {
                vstd::arithmetic::power2::lemma_pow2_strictly_increases(k as nat, 23);
            }
            vstd::bits::lemma_u32_shl_is_mul(1, k);
            vstd::arithmetic::power2::lemma_pow2_pos(k as nat);
        }
        let step: u32 = 1u32 << k;
        let q: u32 = (m + step / 2) / step;
        assert(q * step <= m + step / 2) by (nonlinear_arith)
            requires
                q == (m + step / 2) / step as int,
                step > 0,
        ;
        q * step
    };
    if b >= 0x8000_0000 {
        rm + 0x8000_0000
    } else {
        rm
    }
}

/// Replaces what is not finite by silence.
pub fn clean(b: u32) -> (r: u32)
    ensures
        r == cleaned(b),
{
    if is_finite(b) {
        b
    } else {
        ZERO
    }
}

/// The safety limiter in front of the converter.
pub fn limit(b: u32) -> (r: u32)
    ensures
        r == limited(b),
{
    let m: u32 = b % 0x8000_0000;
    proof {
        magnitude_orders_values(m as int, ONE as int);
        magnitude_orders_values(ONE as int, m as int);
        one_is_the_unit();
    }
    if !is_finite(b) {
        ZERO
    } else if m <= ONE {
        b
    } else if b >= 0x8000_0000 {
        MINUS_ONE
    } else {
        ONE
    }
}

/// The louder of a peak so far and one more sample.
pub fn louder(peak: u32, b: u32) -> (r: u32)
    ensures
        r == louder_of(peak, b),
{
    let m: u32 = b % 0x8000_0000;
    if m <= 0x7f80_0000 && m > peak {
        m
    } else {
        peak
    }
}

/// The limiter moves a sample no further than it has to: nothing between the two ends of the
/// scale is nearer to what came in. What is not finite becomes silence.
pub proof fn limiter_moves_little(b: u32, c: int)
    requires
        -unit() <= c <= unit(),
    ensures
        !finite(b) ==> value(limited(b)) == 0,
        finite(b) && value(b) >= c ==> c <= value(limited(b)) <= value(b),
        finite(b) && value(b) <= c ==> value(b) <= value(limited(b)) <= c,
{
    one_is_the_unit();
    magnitude_orders_values(0, 0);
}

/// What enters the graph is finite, and what was finite already is left alone; all else becomes
/// silence.
pub proof fn only_what_is_not_finite_is_cleaned(b: u32)
    ensures
        finite(b) ==> cleaned(b) == b,
        !finite(b) ==> value(cleaned(b)) == 0 && finite(cleaned(b)),
{
    magnitude_orders_values(0, 0);
}

/// Moving a number into a range moves it no further than it has to: nothing in the range is
/// nearer.
pub proof fn clamping_moves_little(v: u32, min: u32, max: u32, c: int)
    requires
        !nan(v),
        !nan(min),
        !nan(max),
        value(min) <= c <= value(max),
    ensures
        value(min) <= value(clamped(v, min, max)) <= value(max),
        value(v) >= c ==> c <= value(clamped(v, min, max)) <= value(v),
        value(v) <= c ==> value(v) <= value(clamped(v, min, max)) <= c,
        value(min) <= value(v) <= value(max) ==> clamped(v, min, max) == v,
{
}

} // verus!
