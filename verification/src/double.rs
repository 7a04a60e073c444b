//! Binary floating-point numbers, kept by their bit patterns.
//!
//! Areas and unit prices arrive as IEEE 754 double-precision numbers. The
//! library never computes with them beyond one question, whether two of them
//! lie within a tolerance of each other, and answers it in integers.

use vstd::arithmetic::power2::*;
use vstd::prelude::*;

verus! {

/// Two to the number of fraction bits.
pub const FRACTION_LIMIT: u64 = 0x10_0000_0000_0000;

/// The sign bit alone.
pub const SIGN_BIT: u64 = 0x8000_0000_0000_0000;

/// A double-precision number, as the 64 bits that encode it: one sign bit,
/// eleven exponent bits, 52 fraction bits.
#[derive(Clone, Copy, Debug, PartialEq, Eq, Structural)]
pub struct Double {
    pub bits: u64,
}

impl Double {
    pub open spec fn is_negative(self) -> bool {
        self.bits >= SIGN_BIT
    }

    /// The biased exponent.
    pub open spec fn exponent(self) -> nat {
        ((self.bits / FRACTION_LIMIT) % 2048) as nat
    }

    /// Neither an infinity nor a NaN.
    pub open spec fn is_finite(self) -> bool {
        self.exponent() != 2047
    }

    /// The integer in front of the power of two; subnormal numbers lack the
    /// leading one.
    pub open spec fn significand(self) -> nat {
        let fraction = (self.bits % FRACTION_LIMIT) as nat;
        if self.exponent() == 0 {
            fraction
        } else {
            (fraction + FRACTION_LIMIT) as nat
        }
    }

    /// The power of two, counted from the smallest subnormal number.
    pub open spec fn scale(self) -> nat {
        if self.exponent() == 0 {
            0
        } else {
            (self.exponent() - 1) as nat
        }
    }

    /// The absolute value of a finite number, in units of the smallest
    /// subnormal number. Every finite number is a whole number of them.
    pub open spec fn magnitude(self) -> nat {
        self.significand() * pow2(self.scale())
    }

    /// The value of a finite number in the same units.
    pub open spec fn units(self) -> int {
        if self.is_negative() {
            -(self.magnitude() as int)
        } else {
            self.magnitude() as int
        }
    }
}

pub open spec fn distance(x: int, y: int) -> int {
    if x >= y {
        x - y
    } else {
        y - x
    }
}

/// `|a - b| <= tolerance`, with the difference rounded to the nearest double
/// and ties going to the even significand. A rounded difference is at most
/// the tolerance exactly when the true one is no further above it than half
/// of the tolerance's last place, and on the halfway point only if rounding
/// down is rounding to even. A NaN or an infinity is within no tolerance.
pub open spec fn is_close(a: Double, b: Double, tolerance: Double) -> bool {
    let doubled = 2 * distance(a.units(), b.units());
    let bound = 2 * tolerance.units() + pow2(tolerance.scale());
    &&& a.is_finite()
    &&& b.is_finite()
    &&& (doubled < bound || (doubled == bound && tolerance.significand() % 2 == 0))
}

/// A number usable as a tolerance: positive, finite, and large enough that a
/// number 53 binary places below its last one can be told from zero.
pub open spec fn is_tolerance(t: Double) -> bool {
    &&& !t.is_negative()
    &&& t.is_finite()
    &&& t.scale() >= 53
}

fn power_of_two(k: u64) -> (r: u128)
    requires
        k < 128,
    ensures
        r == pow2(k as nat),
{
    let mut r: u128 = 1;
    proof {
        lemma2_to64();
    }
    for i in 0..k
        invariant
            r == pow2(i as nat),
            k < 128,
    {
        proof {
            lemma_pow2_unfold((i + 1) as nat);
            lemma_pow2_strictly_increases((i + 1) as nat, 128);
            lemma_pow2_adds(64, 64);
            lemma2_to64();
            assert(pow2(128) == 0x1_0000_0000_0000_0000 * 0x1_0000_0000_0000_0000);
        }
        r = r * 2;
    }
    r
}

fn parts(x: Double) -> (r: (u64, u64))
    ensures
        r.0 == x.significand(),
        r.1 == x.scale(),
        r.0 < 2 * FRACTION_LIMIT,
        r.1 > 0 ==> r.0 >= FRACTION_LIMIT,
        r.1 <= 2046,
{
    let exponent = (x.bits / FRACTION_LIMIT) % 2048;
    let fraction = x.bits % FRACTION_LIMIT;
    if exponent == 0 {
        (fraction, 0)
    } else {
        (fraction + FRACTION_LIMIT, exponent - 1)
    }
}

/// `m * 2^s` read at the finer scale `g`.
proof fn lemma_rescale(m: nat, s: nat, g: nat)
    requires
        g <= s,
    ensures
        (m * pow2((s - g) as nat)) * pow2(g) == m * pow2(s),
{
    lemma_pow2_adds((s - g) as nat, g);
    vstd::arithmetic::mul::lemma_mul_is_associative(
        m as int,
        pow2((s - g) as nat) as int,
        pow2(g) as int,
    );
}

/// A product with a power of two grows with either factor.
proof fn lemma_scaled_monotone(m: nat, s: nat, n: nat, t: nat)
    requires
        m <= n,
        s <= t,
    ensures
        m * pow2(s) <= n * pow2(t),
{
    if s < t {
        lemma_pow2_strictly_increases(s, t);
    }
    assert(m * pow2(s) <= n * pow2(t)) by (nonlinear_arith)
        requires
            m <= n,
            pow2(s) <= pow2(t),
    ;
}

/// Comparing two multiples of one positive power is comparing the factors.
proof fn lemma_compare_scaled(x: int, y: int, g: nat)
    ensures
        x * pow2(g) < y * pow2(g) <==> x < y,
        x * pow2(g) == y * pow2(g) <==> x == y,
{
    lemma_pow2_pos(g);
    let p = pow2(g) as int;
    assert(x < y ==> x * p < y * p) by (nonlinear_arith)
        requires
            p > 0,
    ;
    assert(y < x ==> y * p < x * p) by (nonlinear_arith)
        requires
            p > 0,
    ;
}


/// A number with the larger scale is the larger one, since its significand
/// is full.
proof fn lemma_scale_decides(m: nat, s: nat, n: nat, t: nat)
    requires
        m < 2 * FRACTION_LIMIT,
        n >= FRACTION_LIMIT,
        s < t,
    ensures
        m * pow2(s) < n * pow2(t),
{
    lemma_pow2_pos(s);
    lemma_pow2_unfold((s + 1) as nat);
    if s + 1 < t {
        lemma_pow2_strictly_increases((s + 1) as nat, t);
    }
    let p = pow2(s) as int;
    let q = pow2(t) as int;
    assert(m * p < n * q) by (nonlinear_arith)
        requires
            m < 2 * n,
            p > 0,
            2 * p <= q,
            n >= 0,
    ;
}

proof fn lemma_pow2_places()
    ensures
        pow2(0) == 1,
        pow2(1) == 2,
        pow2(2) == 4,
        pow2(53) == 0x20_0000_0000_0000,
        pow2(54) == 0x40_0000_0000_0000,
{
    lemma2_to64();
    lemma_pow2_adds(32, 21);
    lemma_pow2_adds(32, 22);
    assert(pow2(53) == 0x1_0000_0000 * 0x20_0000);
    assert(pow2(54) == 0x1_0000_0000 * 0x40_0000);
}

/// What lies 54 scales or more below `t` is under half of `2^t`.
proof fn lemma_negligible(m: nat, s: nat, t: nat)
    requires
        m < 2 * FRACTION_LIMIT,
        s + 53 < t,
    ensures
        2 * (m * pow2(s)) < pow2(t),
{
    lemma_pow2_places();
    lemma_pow2_pos(s);
    lemma_pow2_adds(54, s);
    if s + 54 < t {
        lemma_pow2_strictly_increases((s + 54) as nat, t);
    }
    let p = pow2(s) as int;
    assert(2 * (m * p) < 0x40_0000_0000_0000 * p) by (nonlinear_arith)
        requires
            m < 0x20_0000_0000_0000,
            p > 0,
    ;
}

/// Whether the larger magnitude `mh * 2^sh`, plus or minus the smaller one
/// `ml * 2^sl`, comes to at most half a place more than `m * 2^t`; all three
/// scales are at most 54 above `t - 53`.
fn fits_aligned(mh: u64, sh: u64, ml: u64, sl: u64, add: bool, m: u64, t: u64) -> (r: bool)
    requires
        mh < 2 * FRACTION_LIMIT,
        ml < 2 * FRACTION_LIMIT,
        m < 2 * FRACTION_LIMIT,
        53 <= t <= 2046,
        t - 53 <= sl <= sh <= t + 1,
        !add ==> ml * pow2(sl as nat) <= mh * pow2(sh as nat),
    ensures
        r == ({
            let h = mh * pow2(sh as nat);
            let l = ml * pow2(sl as nat);
            let doubled = 2 * (if add { h + l } else { h - l });
            let bound = 2 * (m * pow2(t as nat)) + pow2(t as nat);
            doubled < bound || (doubled == bound && m % 2 == 0)
        }),
{
    let g: u64 = t - 53;
    let ph = power_of_two(sh - g);
    let pl = power_of_two(sl - g);
    proof {
        lemma_pow2_places();
        if sh - g < 54 {
            lemma_pow2_strictly_increases((sh - g) as nat, 54);
        }
        if sl - g < 54 {
            lemma_pow2_strictly_increases((sl - g) as nat, 54);
        }
        assert(mh * ph <= 0x20_0000_0000_0000 * 0x40_0000_0000_0000) by (nonlinear_arith)
            requires
                mh < 0x20_0000_0000_0000,
                ph <= 0x40_0000_0000_0000,
        ;
        assert(ml * pl <= 0x20_0000_0000_0000 * 0x40_0000_0000_0000) by (nonlinear_arith)
            requires
                ml < 0x20_0000_0000_0000,
                pl <= 0x40_0000_0000_0000,
        ;
    }
    let h: u128 = (mh as u128) * ph;
    let l: u128 = (ml as u128) * pl;
    let bound: u128 = (2 * (m as u128) + 1) * 0x20_0000_0000_0000u128;
    proof {
        lemma_rescale(mh as nat, sh as nat, g as nat);
        lemma_rescale(ml as nat, sl as nat, g as nat);
        lemma_pow2_adds(53, g as nat);
        let p = pow2(g as nat) as int;
        assert(pow2(t as nat) == 0x20_0000_0000_0000 * p);
        assert(bound * p == 2 * (m * pow2(t as nat)) + pow2(t as nat)) by (nonlinear_arith)
            requires
                bound == (2 * m + 1) * 0x20_0000_0000_0000,
                pow2(t as nat) == 0x20_0000_0000_0000 * p,
        ;
        assert((2 * (h + l)) * p == 2 * (mh * pow2(sh as nat) + ml * pow2(sl as nat)))
            by (nonlinear_arith)
            requires
                h * p == mh * pow2(sh as nat),
                l * p == ml * pow2(sl as nat),
        ;
        assert((2 * (h - l)) * p == 2 * (mh * pow2(sh as nat) - ml * pow2(sl as nat)))
            by (nonlinear_arith)
            requires
                h * p == mh * pow2(sh as nat),
                l * p == ml * pow2(sl as nat),
        ;
        lemma_compare_scaled(2 * (h + l), bound as int, g as nat);
        lemma_compare_scaled(2 * (h - l), bound as int, g as nat);
        lemma_compare_scaled(h as int, l as int, g as nat);
    }
    let doubled: u128 = if add {
        2 * (h + l)
    } else {
        2 * (h - l)
    };
    doubled < bound || (doubled == bound && m % 2 == 0)
}

/// The same question far above the tolerance, where only neighbouring
/// numbers can be that near each other.
fn fits_far_above(mh: u64, sh: u64, ml: u64, sl: u64, m: u64, t: u64) -> (r: bool)
    requires
        FRACTION_LIMIT <= mh < 2 * FRACTION_LIMIT,
        ml < 2 * FRACTION_LIMIT,
        m < 2 * FRACTION_LIMIT,
        sl <= sh <= 2046,
        t + 2 <= sh,
        ml * pow2(sl as nat) <= mh * pow2(sh as nat),
    ensures
        r == ({
            let doubled = 2 * (mh * pow2(sh as nat) - ml * pow2(sl as nat));
            let bound = 2 * (m * pow2(t as nat)) + pow2(t as nat);
            doubled < bound || (doubled == bound && m % 2 == 0)
        }),
{
    let ghost unit = pow2(t as nat) as int;
    proof {
        lemma_pow2_pos(t as nat);
        lemma_pow2_places();
    }
    if sl + 1 < sh {
        proof {
            let q = pow2((sh - 2) as nat) as int;
            lemma_pow2_adds(2, (sh - 2) as nat);
            lemma_scaled_monotone(ml as nat, sl as nat, ml as nat, (sh - 2) as nat);
            if t < sh - 2 {
                lemma_pow2_strictly_increases(t as nat, (sh - 2) as nat);
            }
            assert(mh * (4 * q) - ml * q > 0x20_0000_0000_0000 * unit) by (nonlinear_arith)
                requires
                    mh >= 0x10_0000_0000_0000,
                    ml < 0x20_0000_0000_0000,
                    q >= unit,
                    unit > 0,
            ;
            assert(2 * (m * unit) + unit < 0x40_0000_0000_0000 * unit) by (nonlinear_arith)
                requires
                    m < 0x20_0000_0000_0000,
                    unit > 0,
            ;
        }
        return false;
    }
    let k: u64 = sh - sl;
    let high: u64 = if k == 0 { mh } else { 2 * mh };
    let p: Ghost<int> = Ghost(pow2(sl as nat) as int);
    proof {
        lemma_rescale(mh as nat, sh as nat, sl as nat);
        if k == 0 {
            assert(mh * pow2(0) == mh);
        } else {
            assert(k == 1);
            assert(mh * pow2(1) == 2 * mh);
        }
        assert(high == mh * pow2(k as nat));
        assert(high * p@ == mh * pow2(sh as nat));
        lemma_compare_scaled(high as int, ml as int, sl as nat);
    }
    let gap: u64 = high - ml;
    proof {
        assert(gap * p@ == mh * pow2(sh as nat) - ml * pow2(sl as nat)) by (nonlinear_arith)
            requires
                gap == high - ml,
                high * p@ == mh * pow2(sh as nat),
                p@ == pow2(sl as nat),
        ;
        lemma_pow2_adds((sl - t) as nat, t as nat);
    }
    if gap == 0 {
        proof {
            assert(2 * (m * unit) + unit > 0) by (nonlinear_arith)
                requires
                    unit > 0,
                    m >= 0,
            ;
        }
        return true;
    }
    let ghost f = pow2((sl - t) as nat) as int;
    assert(2 * (gap * p@) == (2 * gap * f) * unit) by (nonlinear_arith)
        requires
            p@ == f * unit,
    ;
    assert((2 * m + 1) * unit == 2 * (m * unit) + unit) by (nonlinear_arith);
    proof {
        lemma_compare_scaled(2 * gap * f, 2 * m + 1, t as nat);
    }
    if sl - t >= 54 {
        proof {
            if sl - t > 54 {
                lemma_pow2_strictly_increases(54, (sl - t) as nat);
            }
                assert(2 * gap * f > 2 * m + 1) by (nonlinear_arith)
                requires
                    gap >= 1,
                    f >= 0x40_0000_0000_0000,
                    m < 0x20_0000_0000_0000,
            ;
        }
        return false;
    }
    let shift = power_of_two(sl - t);
    proof {
        lemma_pow2_strictly_increases((sl - t) as nat, 54);
        assert(2 * gap * shift <= 0x80_0000_0000_0000 * 0x40_0000_0000_0000) by (nonlinear_arith)
            requires
                0 <= gap < 0x40_0000_0000_0000,
                0 <= shift <= 0x40_0000_0000_0000,
        ;
    }
    let doubled: u128 = 2 * (gap as u128) * shift;
    let bound: u128 = 2 * (m as u128) + 1;
    doubled < bound || (doubled == bound && m % 2 == 0)
}

/// `(a - b).abs() <= tolerance`, in double precision.
pub fn close(a: Double, b: Double, tolerance: Double) -> (r: bool)
    requires
        is_tolerance(tolerance),
    ensures
        r == is_close(a, b, tolerance),
{
    let (m, t) = parts(tolerance);
    let (ma, sa) = parts(a);
    let (mb, sb) = parts(b);
    if (a.bits / FRACTION_LIMIT) % 2048 == 2047 || (b.bits / FRACTION_LIMIT) % 2048 == 2047 {
        return false;
    }
    let a_is_larger = sa > sb || (sa == sb && ma >= mb);
    let (mh, sh, ml, sl) = if a_is_larger { (ma, sa, mb, sb) } else { (mb, sb, ma, sa) };
    let above = sh > t || (sh == t && mh > m);
    let same_sign = (a.bits >= SIGN_BIT) == (b.bits >= SIGN_BIT);
    let ghost unit = pow2(t as nat) as int;
    let ghost high = mh * pow2(sh as nat);
    let ghost low = ml * pow2(sl as nat);
    let ghost tol = m * unit;
    proof {
        lemma_pow2_pos(t as nat);
        lemma_pow2_pos(sl as nat);
        assert(low >= 0) by (nonlinear_arith)
            requires
                low == ml * pow2(sl as nat),
                pow2(sl as nat) > 0,
        ;
        if sl < sh {
            lemma_scale_decides(ml as nat, sl as nat, mh as nat, sh as nat);
        } else {
            lemma_scaled_monotone(ml as nat, sl as nat, mh as nat, sh as nat);
        }
        assert(low <= high);
        assert(distance(a.units(), b.units()) == if same_sign { high - low } else { high + low });
        if above {
            // the next number above the tolerance is a whole place away
            lemma_scaled_monotone((m + 1) as nat, t as nat, (m + 1) as nat, t as nat);
            if sh > t {
                lemma_pow2_unfold((t + 1) as nat);
                lemma_scaled_monotone(FRACTION_LIMIT as nat, (t + 1) as nat, mh as nat, sh as nat);
                assert(FRACTION_LIMIT * pow2((t + 1) as nat) >= (m + 1) * unit)
                    by (nonlinear_arith)
                    requires
                        pow2((t + 1) as nat) == 2 * unit,
                        m < 2 * FRACTION_LIMIT,
                        unit > 0,
                ;
            } else {
                lemma_scaled_monotone((m + 1) as nat, t as nat, mh as nat, sh as nat);
            }
            assert((m + 1) * unit == tol + unit) by (nonlinear_arith)
                requires
                    tol == m * unit,
            ;
            assert(high >= tol + unit);
        } else {
            if sh < t {
                lemma_scale_decides(mh as nat, sh as nat, m as nat, t as nat);
            } else {
                lemma_scaled_monotone(mh as nat, sh as nat, m as nat, t as nat);
            }
            assert(high <= tol);
        }
        if sl + 53 < t {
            lemma_negligible(ml as nat, sl as nat, t as nat);
        }
    }
    if same_sign {
        if !above {
            true
        } else if sl + 53 < t {
            false
        } else if sh <= t + 1 {
            fits_aligned(mh, sh, ml, sl, false, m, t)
        } else {
            fits_far_above(mh, sh, ml, sl, m, t)
        }
    } else if above {
        false
    } else if sl + 53 < t {
        true
    } else {
        fits_aligned(mh, sh, ml, sl, true, m, t)
    }
}

// ---------------------------------------------------------------------------
// Laws
// ---------------------------------------------------------------------------

/// The next pattern of bits stands for a value that is one place further.
#[verifier::spinoff_prover]
proof fn lemma_next_bits(a: Double)
    requires
        a.bits < 0x7ff0_0000_0000_0000 - 1,
    ensures
        (Double { bits: (a.bits + 1) as u64 }).units() - a.units() == pow2(a.scale()),
{
    let b = Double { bits: (a.bits + 1) as u64 };
    let e = a.exponent();
    let f = a.bits % FRACTION_LIMIT;
    assert(a.bits == e * FRACTION_LIMIT + f);
    let p = pow2(a.scale()) as int;
    let m = a.significand() as int;
    assert(a.magnitude() == m * p);
    if f < FRACTION_LIMIT - 1 {
        assert(b.exponent() == e && b.bits % FRACTION_LIMIT == f + 1);
        assert(b.significand() == m + 1);
        assert(b.scale() == a.scale());
        assert((m + 1) * p == m * p + p) by (nonlinear_arith);
        assert(b.magnitude() == (m + 1) * p);
    } else {
        assert(b.exponent() == e + 1 && b.bits % FRACTION_LIMIT == 0);
        assert(b.significand() == FRACTION_LIMIT);
        if e > 0 {
            assert(a.scale() == e - 1 && b.scale() == e);
            assert(m == 2 * FRACTION_LIMIT - 1);
            lemma_pow2_unfold(e);
            assert(pow2(e) == 2 * p);
            assert(FRACTION_LIMIT * (2 * p) == (2 * FRACTION_LIMIT - 1) * p + p)
                by (nonlinear_arith);
            assert(b.magnitude() == FRACTION_LIMIT * (2 * p));
        } else {
            assert(m == FRACTION_LIMIT - 1);
            assert(b.scale() == a.scale());
            assert(FRACTION_LIMIT * p == (FRACTION_LIMIT - 1) * p + p) by (nonlinear_arith);
            assert(b.magnitude() == FRACTION_LIMIT * p);
        }
    }
}

/// What the bits stand for. Zero is zero; from one pattern to the next the value
/// grows by one place, which is two to the power that the exponent bits give;
/// and the sign bit turns the value round.
#[verifier::spinoff_prover]
pub proof fn law_bits_count_up(a: Double)
    requires
        a.bits < 0x7ff0_0000_0000_0000 - 1,
    ensures
        (Double { bits: 0 }).units() == 0,
        (Double { bits: (a.bits + 1) as u64 }).units() - a.units() == (if a.bits
            < 0x20_0000_0000_0000 {
            1
        } else {
            pow2((a.bits / 0x10_0000_0000_0000 - 1) as nat) as int
        }),
        (Double { bits: (a.bits + 0x8000_0000_0000_0000) as u64 }).units() == -a.units(),
{
    let zero = Double { bits: 0 };
    assert(zero.significand() == 0);
    lemma_pow2_places();
    assert(0 * pow2(0) == 0);
    let e = a.exponent();
    let f = a.bits % FRACTION_LIMIT;
    lemma_next_bits(a);
    assert(e == a.bits / FRACTION_LIMIT);
    assert(a.scale() == (if e == 0 { 0 } else { (e - 1) as nat }));
    assert(a.bits < 0x20_0000_0000_0000 <==> e <= 1);
    let n = Double { bits: (a.bits + 0x8000_0000_0000_0000) as u64 };
    assert(n.exponent() == e && n.bits % FRACTION_LIMIT == f);
}

} // verus!
