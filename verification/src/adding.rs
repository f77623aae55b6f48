//! The sum of two samples.
//!
//! A sum of patterns is worked out exactly, as a whole number of units, and rounded to the
//! nearest pattern, as IEEE-754 has it by default.
use crate::sample;
use vstd::prelude::*;

verus! {

/// What stands for no number.
pub const NOT_A_NUMBER: u32 = 0x7fc0_0000;

/// How far two numbers are apart.
pub open spec fn apart(x: int, y: int) -> int {
    if x <= y {
        y - x
    } else {
        x - y
    }
}

/// Of two patterns, `r` is the better one for the number `s`: it is nearer, or as near and
/// even, or stands for the same number.
pub open spec fn stands_against(s: int, r: u32, c: u32) -> bool {
    let dr = apart(sample::value(r), s);
    let dc = apart(sample::value(c), s);
    dr < dc || dr == dc && (r % 2 == 0 || sample::value(c) == sample::value(r))
}

/// The pattern nearest to a number, and of two that are equally near the even one. Infinity
/// counts as the next power of two behind the largest finite number.
pub open spec fn nearest(s: int, r: u32) -> bool {
    !sample::nan(r) && forall|c: u32| !sample::nan(c) ==> #[trigger] stands_against(s, r, c)
}

/// `r` is the sum of `a` and `b`.
pub open spec fn sums_to(a: u32, b: u32, r: u32) -> bool {
    let s = sample::value(a) + sample::value(b);
    if sample::nan(a) || sample::nan(b) {
        r == NOT_A_NUMBER
    } else if !sample::finite(a) {
        if !sample::finite(b) && a != b {
            r == NOT_A_NUMBER
        } else {
            r == a
        }
    } else if !sample::finite(b) {
        r == b
    } else if s == 0 {
        // A zero is negative only if both summands are.
        r == if sample::negative(a) && sample::negative(b) {
            0x8000_0000
        } else {
            sample::ZERO
        }
    } else {
        nearest(s, r) && sample::negative(r) == (s < 0)
    }
}

/// A sample that is too small to have all its digits counts as a zero of its sign.
pub open spec fn flushed(b: u32) -> u32 {
    if sample::magnitude(b) < 0x80_0000 {
        if sample::negative(b) {
            0x8000_0000
        } else {
            sample::ZERO
        }
    } else {
        b
    }
}

/// `r` is the sum of `a` and `b`, where samples that are too small may count as zero, before
/// and after.
pub open spec fn adds_to(flush: bool, a: u32, b: u32, r: u32) -> bool {
    if flush {
        exists|q: u32| #[trigger] sums_to(flushed(a), flushed(b), q) && r == flushed(q)
    } else {
        sums_to(a, b, r)
    }
}

// ---------------------------------------------------------------- magnitudes

/// The same for magnitudes.
spec fn holds_against(x: int, m: int, c: int) -> bool {
    let dm = apart(sample::scaled(m), x);
    let dc = apart(sample::scaled(c), x);
    dm < dc || dm == dc && (m % 2 == 0 || c == m)
}

/// The magnitude nearest to a number.
spec fn nearest_magnitude(x: int, m: int) -> bool {
    0 <= m <= 0x7f80_0000 && forall|c: int|
        0 <= c <= 0x7f80_0000 ==> #[trigger] holds_against(x, m, c)
}

/// A magnitude put together from its significand and its exponent.
proof fn parts_make_a_magnitude(q: int, e: int)
    requires
        0 <= e,
        0x80_0000 <= q <= 0x100_0000 || e == 0 && 0 <= q <= 0x100_0000,
    ensures
        sample::scaled(e * 0x80_0000 + q) == q * vstd::arithmetic::power2::pow2(e as nat),
{
    let m = e * 0x80_0000 + q;
    let p = vstd::arithmetic::power2::pow2(e as nat) as int;
    vstd::arithmetic::power2::lemma2_to64();
    if q == 0x100_0000 {
        assert(m / 0x80_0000 == e + 2 && m % 0x80_0000 == 0);
        vstd::arithmetic::power2::lemma_pow2_unfold((e + 1) as nat);
    } else if q >= 0x80_0000 {
        assert(m / 0x80_0000 == e + 1 && m % 0x80_0000 == q - 0x80_0000);
    } else {
        assert(m / 0x80_0000 == 0 && m % 0x80_0000 == q);
        assert(p == 1);
    }
}

/// Between two neighbours the nearer one is the nearest of all.
proof fn neighbours_decide(x: int, m: int, up: bool)
    requires
        0 <= m,
        sample::scaled(m) <= x < sample::scaled(m + 1),
        ({
            let below = x - sample::scaled(m);
            let above = sample::scaled(m + 1) - x;
            if up {
                above < below || above == below && m % 2 == 1
            } else {
                below < above || above == below && m % 2 == 0
            }
        }),
    ensures
        m + (if up {
            1int
        } else {
            0
        }) <= 0x7f80_0000 ==> nearest_magnitude(
            x,
            m + if up {
                1int
            } else {
                0
            },
        ),
        m >= 0x7f80_0000 ==> nearest_magnitude(x, 0x7f80_0000),
{
    let r = m + if up {
        1int
    } else {
        0
    };
    assert forall|c: int| 0 <= c <= 0x7f80_0000 && r <= 0x7f80_0000 implies #[trigger] holds_against(
        x,
        r,
        c,
    ) by {
        sample::magnitude_orders_values(c, m);
        sample::magnitude_orders_values(c, m + 1);
        sample::magnitude_orders_values(m, c);
        sample::magnitude_orders_values(m + 1, c);
    }
    assert forall|c: int| 0 <= c <= 0x7f80_0000 && m >= 0x7f80_0000 implies #[trigger] holds_against(
        x,
        0x7f80_0000,
        c,
    ) by {
        sample::magnitude_orders_values(c, 0x7f80_0000);
        sample::magnitude_orders_values(0x7f80_0000, m);
        sample::magnitude_orders_values(m, 0x7f80_0000);
    }
}

/// A number that stands so near to a pattern that no other is as near.
proof fn small_change_is_lost(m: int, e: int, q: int, x: int)
    requires
        e >= 2,
        0x80_0000 <= q < 0x100_0000,
        m == e * 0x80_0000 + q,
        m < 0x7f80_0000,
        apart(x, q * vstd::arithmetic::power2::pow2(e as nat)) * 4
            < vstd::arithmetic::power2::pow2(e as nat),
    ensures
        nearest_magnitude(x, m),
{
    let p = vstd::arithmetic::power2::pow2(e as nat) as int;
    let a = q * p;
    parts_make_a_magnitude(q, e);
    parts_make_a_magnitude(q + 1, e);
    assert((q + 1) * p == a + p) by (nonlinear_arith)
        requires
            a == q * p,
    ;
    vstd::arithmetic::power2::lemma_pow2_unfold(e as nat);
    let h = vstd::arithmetic::power2::pow2((e - 1) as nat) as int;
    assert(p == 2 * h);
    assert(sample::scaled(m - 1) <= a - h) by {
        if q > 0x80_0000 {
            parts_make_a_magnitude(q - 1, e);
            assert((q - 1) * p == a - p) by (nonlinear_arith)
                requires
                    a == q * p,
            ;
            vstd::arithmetic::power2::lemma_pow2_pos((e - 1) as nat);
        } else {
            parts_make_a_magnitude(0xff_ffff, e - 1);
            assert(m - 1 == (e - 1) * 0x80_0000 + 0xff_ffff);
            assert(0xff_ffff * h == 0x80_0000 * (2 * h) - h);
        }
    }
    assert forall|c: int| 0 <= c <= 0x7f80_0000 implies #[trigger] holds_against(x, m, c) by {
        sample::magnitude_orders_values(c, m);
        sample::magnitude_orders_values(c, m + 1);
        sample::magnitude_orders_values(c, m - 1);
        sample::magnitude_orders_values(m - 1, c);
        sample::magnitude_orders_values(m + 1, c);
    }
}

/// The significand and the exponent of a finite magnitude.
fn parts(m: u32) -> (r: (u32, u32))
    requires
        m < 0x7f80_0000,
    ensures
        r.0 < 0x100_0000,
        r.0 >= 0x80_0000 || r.1 == 0,
        r.1 <= 253,
        m == r.1 * 0x80_0000 + r.0,
        sample::scaled(m as int) == r.0 * vstd::arithmetic::power2::pow2(r.1 as nat),
{
    let exponent: u32 = m / 0x80_0000;
    if exponent == 0 {
        proof {
            parts_make_a_magnitude(m as int, 0);
        }
        (m, 0)
    } else {
        let q: u32 = 0x80_0000 + m % 0x80_0000;
        proof {
            parts_make_a_magnitude(q as int, exponent - 1);
        }
        (q, exponent - 1)
    }
}

/// The magnitude nearest to `s` times two to the power of `e`.
fn pack(s: u64, e: u32) -> (r: u32)
    requires
        0 < s < 0x10_0000_0000_0000,
        e <= 253,
    ensures
        nearest_magnitude(s * vstd::arithmetic::power2::pow2(e as nat), r as int),
{
    let ghost x = s * vstd::arithmetic::power2::pow2(e as nat);
    if s < 0x100_0000 {
        let mut q: u64 = s;
        let mut f: u32 = e;
        while q < 0x80_0000 && f > 0
            invariant
                0 < q < 0x100_0000,
                f <= 253,
                x == q * vstd::arithmetic::power2::pow2(f as nat),
            decreases f,
        {
            proof {
                vstd::arithmetic::power2::lemma_pow2_unfold(f as nat);
                let h = vstd::arithmetic::power2::pow2((f - 1) as nat) as int;
                assert(q * (2 * h) == (2 * q) * h) by (nonlinear_arith);
            }
            q = 2 * q;
            f -= 1;
        }
        let m: u32 = f * 0x80_0000 + q as u32;
        proof {
            parts_make_a_magnitude(q as int, f as int);
            sample::magnitude_orders_values(m as int, m + 1);
            neighbours_decide(x, m as int, false);
        }
        m
    } else {
        let mut w: u64 = 1;
        let mut k: u32 = 0;
        proof {
            vstd::arithmetic::power2::lemma2_to64();
        }
        while s / w >= 0x100_0000
            invariant
                0x100_0000 <= s < 0x10_0000_0000_0000,
                k <= 28,
                w == vstd::arithmetic::power2::pow2(k as nat),
                1 <= w <= 0x1000_0000,
                s / w >= 0x80_0000,
            decreases 28 - k,
        {
            proof {
                assert(w < 0x1000_0000) by (nonlinear_arith)
                    requires
                        s / w >= 0x100_0000,
                        s < 0x10_0000_0000_0000,
                        w >= 1,
                ;
                assert(s as int / (2 * w) >= 0x80_0000) by (nonlinear_arith)
                    requires
                        s / w >= 0x100_0000,
                        w >= 1,
                ;
                vstd::arithmetic::power2::lemma2_to64();
                vstd::arithmetic::power2::lemma_pow2_unfold((k + 1) as nat);
                if k < 27 {
                    vstd::arithmetic::power2::lemma_pow2_strictly_increases(k as nat, 27);
                }
                assert(k <= 27 && w <= 0x800_0000);
            }
            w = 2 * w;
            k += 1;
        }
        let q: u64 = s / w;
        let rest: u64 = s % w;
        let m: u32 = (e + k) * 0x80_0000 + q as u32;
        let up: bool = 2 * rest > w || (2 * rest == w && q % 2 == 1);
        proof {
            let p = vstd::arithmetic::power2::pow2(e as nat) as int;
            vstd::arithmetic::power2::lemma_pow2_pos(e as nat);
            vstd::arithmetic::power2::lemma_pow2_adds(e as nat, k as nat);
            parts_make_a_magnitude(q as int, e + k);
            parts_make_a_magnitude(q + 1, e + k);
            vstd::arithmetic::div_mod::lemma_fundamental_div_mod(s as int, w as int);
            let lo = q * (p * w);
            let hi = (q + 1) * (p * w);
            assert(x - lo == rest * p && hi - x == (w - rest) * p) by (nonlinear_arith)
                requires
                    x == s * p,
                    s == w * q + rest,
                    lo == q * (p * w),
                    hi == (q + 1) * (p * w),
            ;
            assert(0 <= rest * p && 0 < (w - rest) * p) by (nonlinear_arith)
                requires
                    0 <= rest < w,
                    p > 0,
            ;
            assert((2 * rest > w ==> (w - rest) * p < rest * p) && (2 * rest == w ==> (w - rest) * p
                == rest * p) && (2 * rest < w ==> (w - rest) * p > rest * p)) by (nonlinear_arith)
                requires
                    p > 0,
            ;
            assert(m % 2 == q % 2);
            neighbours_decide(x, m as int, up);
        }
        let r: u32 = if up {
            m + 1
        } else {
            m
        };
        if r > 0x7f80_0000 {
            0x7f80_0000
        } else {
            r
        }
    }
}

/// A magnitude with a sign.
fn signed(m: u32, negative: bool) -> (r: u32)
    requires
        m <= 0x7f80_0000,
    ensures
        sample::magnitude(r) == m,
        sample::negative(r) == negative,
{
    if negative {
        m + 0x8000_0000
    } else {
        m
    }
}

/// With the sign of the number, the nearest magnitude is the nearest pattern.
proof fn sign_is_kept(s: int, x: int, r: u32)
    requires
        x > 0,
        s == if sample::negative(r) {
            -x
        } else {
            x
        },
        nearest_magnitude(x, sample::magnitude(r)),
    ensures
        nearest(s, r),
{
    let m = sample::magnitude(r);
    assert forall|c: u32| !sample::nan(c) implies #[trigger] stands_against(s, r, c) by {
        let k = sample::magnitude(c);
        assert(holds_against(x, m, k));
        assert(holds_against(x, m, 0));
        sample::magnitude_orders_values(k, 0);
        sample::magnitude_orders_values(m, 0);
    }
}

/// Adds two samples.
pub fn plus(a: u32, b: u32) -> (r: u32)
    ensures
        sums_to(a, b, r),
{
    let am: u32 = a % 0x8000_0000;
    let bm: u32 = b % 0x8000_0000;
    if am > 0x7f80_0000 || bm > 0x7f80_0000 {
        return NOT_A_NUMBER;
    }
    if am == 0x7f80_0000 {
        return if bm == 0x7f80_0000 && a != b {
            NOT_A_NUMBER
        } else {
            a
        };
    }
    if bm == 0x7f80_0000 {
        return b;
    }
    if am >= bm {
        plus_ordered(a, b)
    } else {
        plus_ordered(b, a)
    }
}

/// Adds two finite samples, the one of the larger magnitude first.
fn plus_ordered(a: u32, b: u32) -> (r: u32)
    requires
        sample::finite(a),
        sample::finite(b),
        sample::magnitude(a) >= sample::magnitude(b),
    ensures
        sums_to(a, b, r),
{
    let am: u32 = a % 0x8000_0000;
    let bm: u32 = b % 0x8000_0000;
    let an = a >= 0x8000_0000;
    let bn = b >= 0x8000_0000;
    let (qa, ea) = parts(am);
    let (qb, eb) = parts(bm);
    let ghost pa = vstd::arithmetic::power2::pow2(ea as nat) as int;
    let ghost pb = vstd::arithmetic::power2::pow2(eb as nat) as int;
    let ghost s = sample::value(a) + sample::value(b);
    proof {
        vstd::arithmetic::power2::lemma_pow2_pos(ea as nat);
        vstd::arithmetic::power2::lemma_pow2_pos(eb as nat);
        sample::magnitude_orders_values(bm as int, am as int);
        assert(ea >= eb);
    }
    let d: u32 = ea - eb;
    if d >= 26 {
        proof {
            let x = if an == bn {
                qa * pa + qb * pb
            } else {
                qa * pa - qb * pb
            };
            vstd::arithmetic::power2::lemma_pow2_adds((ea - 26) as nat, 26);
            vstd::arithmetic::power2::lemma2_to64();
            let base = vstd::arithmetic::power2::pow2((ea - 26) as nat) as int;
            if eb < ea - 26 {
                vstd::arithmetic::power2::lemma_pow2_strictly_increases(
                    eb as nat,
                    (ea - 26) as nat,
                );
            }
            assert(pb <= base && pa == base * 0x400_0000);
            assert(4 * (qb * pb) < pa && qb * pb >= 0) by (nonlinear_arith)
                requires
                    0 <= qb < 0x100_0000,
                    0 < pb <= base,
                    pa == base * 0x400_0000,
            ;
            assert(qa * pa >= pa) by (nonlinear_arith)
                requires
                    qa >= 0x80_0000,
                    pa > 0,
            ;
            small_change_is_lost(am as int, ea as int, qa as int, x);
            sign_is_kept(s, x, a);
        }
        return a;
    }
    proof {
        vstd::arithmetic::power2::lemma2_to64();
        if d < 25 {
            vstd::arithmetic::power2::lemma_pow2_strictly_increases(d as nat, 25);
        }
        assert(qa * vstd::arithmetic::power2::pow2(d as nat) <= 0xff_ffff * 0x200_0000)
            by (nonlinear_arith)
            requires
                0 <= qa <= 0xff_ffff,
                0 <= vstd::arithmetic::power2::pow2(d as nat) <= 0x200_0000,
        ;
        vstd::bits::lemma_u64_shl_is_mul(qa as u64, d as u64);
    }
    let big: u64 = (qa as u64) << (d as u64);
    proof {
        let pd = vstd::arithmetic::power2::pow2(d as nat) as int;
        vstd::arithmetic::power2::lemma_pow2_adds(d as nat, eb as nat);
        assert(big * pb == qa * pa) by (nonlinear_arith)
            requires
                big == qa * pd,
                pa == pd * pb,
        ;
        assert(big >= qb) by (nonlinear_arith)
            requires
                big * pb >= qb * pb,
                pb > 0,
        ;
    }
    let sum: u64 = if an == bn {
        big + qb as u64
    } else {
        big - qb as u64
    };
    proof {
        assert(sum * pb == if an == bn {
            big * pb + qb * pb
        } else {
            big * pb - qb * pb
        }) by (nonlinear_arith)
            requires
                sum == if an == bn {
                    big + qb
                } else {
                    big - qb
                },
        ;
        assert(sum == 0 <==> sum * pb == 0) by (nonlinear_arith)
            requires
                pb > 0,
                sum >= 0,
        ;
        assert(sum > 0 ==> sum * pb > 0) by (nonlinear_arith)
            requires
                pb > 0,
        ;
    }
    if sum == 0 {
        return if an && bn {
            0x8000_0000
        } else {
            sample::ZERO
        };
    }
    let r = signed(pack(sum, eb), an);
    proof {
        sign_is_kept(s, sum * pb, r);
    }
    r
}

/// A sample, or a zero of its sign where it is too small to have all its digits.
pub fn flush_small(b: u32) -> (r: u32)
    ensures
        r == flushed(b),
{
    if b % 0x8000_0000 < 0x80_0000 {
        if b >= 0x8000_0000 {
            0x8000_0000
        } else {
            sample::ZERO
        }
    } else {
        b
    }
}

/// Adds two samples; those that are too small may count as zero, before and after.
pub fn plus_as(flush: bool, a: u32, b: u32) -> (r: u32)
    ensures
        adds_to(flush, a, b, r),
{
    if flush {
        flush_small(plus(flush_small(a), flush_small(b)))
    } else {
        plus(a, b)
    }
}

// ---------------------------------------------------------------- laws

/// The order of two summands makes no difference.
pub proof fn order_does_not_matter(a: u32, b: u32, r: u32)
    requires
        sums_to(a, b, r),
    ensures
        sums_to(b, a, r),
{
}

/// There is but one sum of two samples.
pub proof fn sum_is_unique(a: u32, b: u32, r: u32, q: u32)
    requires
        sums_to(a, b, r),
        sums_to(a, b, q),
    ensures
        r == q,
{
    let s = sample::value(a) + sample::value(b);
    if sample::finite(a) && sample::finite(b) && s != 0 {
        assert(stands_against(s, r, q));
        assert(stands_against(s, q, r));
        sample::magnitude_orders_values(sample::magnitude(r), sample::magnitude(q));
        if sample::value(r) != sample::value(q) {
            // Both are even, so there is a pattern between them, and that is nearer.
            let lo = if sample::magnitude(r) < sample::magnitude(q) {
                r
            } else {
                q
            };
            let c = (lo + 1) as u32;
            assert(sample::magnitude(c) == sample::magnitude(lo) + 1);
            assert(stands_against(s, r, c));
            sample::magnitude_orders_values(sample::magnitude(r), sample::magnitude(c));
            sample::magnitude_orders_values(sample::magnitude(c), sample::magnitude(r));
            sample::magnitude_orders_values(sample::magnitude(q), sample::magnitude(c));
            sample::magnitude_orders_values(sample::magnitude(c), sample::magnitude(q));
        }
    }
}

/// There is but one sum of two samples, whether or not small ones count as zero.
pub proof fn flushed_sum_is_unique(flush: bool, a: u32, b: u32, r: u32, q: u32)
    requires
        adds_to(flush, a, b, r),
        adds_to(flush, a, b, q),
    ensures
        r == q,
{
    if flush {
        let x = choose|x: u32| #[trigger] sums_to(flushed(a), flushed(b), x) && r == flushed(x);
        let y = choose|y: u32| #[trigger] sums_to(flushed(a), flushed(b), y) && q == flushed(y);
        sum_is_unique(flushed(a), flushed(b), x, y);
    } else {
        sum_is_unique(a, b, r, q);
    }
}

/// A sum that a pattern stands for exactly is that pattern.
pub proof fn exact_sum_is_exact(a: u32, b: u32, r: u32, q: u32)
    requires
        sample::finite(a) && sample::finite(b),
        !sample::nan(r),
        sample::value(r) == sample::value(a) + sample::value(b),
        sample::value(r) != 0,
        sums_to(a, b, q),
    ensures
        q == r,
{
    let s = sample::value(a) + sample::value(b);
    assert(stands_against(s, q, r));
    sample::magnitude_orders_values(sample::magnitude(r), sample::magnitude(q));
    sample::magnitude_orders_values(sample::magnitude(q), sample::magnitude(r));
}

/// Silence adds nothing: the sum of zero and a number is that number.
pub proof fn silence_adds_nothing(b: u32, r: u32)
    requires
        sums_to(sample::ZERO, b, r),
        !sample::nan(b),
    ensures
        sample::value(r) == sample::value(b),
        b != 0x8000_0000 ==> r == b,
{
    sample::magnitude_orders_values(0, sample::magnitude(b));
    sample::magnitude_orders_values(sample::magnitude(b), 0);
    if sample::finite(b) {
        let s = sample::value(b);
        if s != 0 {
            assert(stands_against(s, r, b));
            sample::magnitude_orders_values(sample::magnitude(r), sample::magnitude(b));
        }
    }
}

/// Only numbers too small for a full significand, those below 2^-126, are flushed, and they
/// become a zero of their sign.
pub proof fn only_the_smallest_are_flushed(b: u32)
    ensures
        sample::scaled(sample::magnitude(b)) >= 0x80_0000 ==> flushed(b) == b,
        sample::scaled(sample::magnitude(b)) < 0x80_0000 ==> sample::value(flushed(b)) == 0
            && sample::negative(flushed(b)) == sample::negative(b),
{
    vstd::arithmetic::power2::lemma2_to64();
    sample::magnitude_orders_values(sample::magnitude(b), 0x80_0000);
    sample::magnitude_orders_values(0x80_0000, sample::magnitude(b));
    sample::magnitude_orders_values(0, 0);
}

/// The sum of two finite samples is a pattern that stands for their sum as nearly as any does;
/// of two that are equally near it is the even one, and its sign is that of the sum. Infinity
/// outlasts everything finite, opposite infinities have no sum, and neither has what is not a
/// number.
pub proof fn sum_is_the_nearest(a: u32, b: u32, r: u32, c: u32)
    requires
        sums_to(a, b, r),
        !sample::nan(c),
    ensures
        sample::finite(a) && sample::finite(b) ==> {
            let s = sample::value(a) + sample::value(b);
            let off = sample::value(r) - s;
            let other = sample::value(c) - s;
            &&& !sample::nan(r)
            &&& -other <= off <= other || other <= off <= -other
            &&& (off == other || off == -other) && sample::value(c) != sample::value(r) ==> r % 2
                == 0
            &&& s > 0 ==> !sample::negative(r)
            &&& s < 0 ==> sample::negative(r)
            &&& s == 0 ==> sample::value(r) == 0
        },
        sample::nan(a) || sample::nan(b) ==> sample::nan(r),
        !sample::nan(a) && !sample::finite(a) && sample::finite(b) ==> r == a,
        sample::finite(a) && !sample::nan(b) && !sample::finite(b) ==> r == b,
        !sample::nan(a) && !sample::finite(a) && !sample::nan(b) && !sample::finite(b) ==> if a
            == b {
            r == a
        } else {
            sample::nan(r)
        },
{
    if sample::finite(a) && sample::finite(b) {
        let s = sample::value(a) + sample::value(b);
        sample::magnitude_orders_values(0, 0);
        sample::magnitude_orders_values(0, sample::magnitude(c));
        if s != 0 {
            assert(stands_against(s, r, c));
        }
    }
}

} // verus!
