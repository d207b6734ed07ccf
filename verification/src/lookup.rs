//! Gamma lookup table: intensity index and gamma value to corrected byte.
//!
//! Gamma is carried in twentieths (a value of 20 is a gamma of one), so the
//! curve `255 * (i/255) ^ (k/20)` is evaluated without any floating point:
//! the base `i/255` is held in 16-bit fixed point (65536 stands for one).
//! The whole part of the exponent is applied by repeated rounded
//! multiplication.  For the fractional part, the twentieth root of the base
//! is taken first and then raised to `k % 20`: the root is computed exactly
//! (an exact fifth root followed by two exact square roots, each the
//! largest value whose integer power fits under the argument at full
//! precision), and since every twentieth root lies well above half scale,
//! the following power chain keeps its precision instead of vanishing in
//! the fixed-point grid.  Every entry of the table is pinned, entry by
//! entry, to the spec-level recurrence below, and the anchor points of the
//! true curve are proved of it: identity at gamma one, saturation at gamma
//! zero, fixed points at both ends of the range, the range bound, and
//! monotonicity.

use vstd::prelude::*;
use vstd::arithmetic::div_mod::lemma_div_is_ordered;
use vstd::arithmetic::div_mod::lemma_div_pos_is_pos;
use vstd::arithmetic::div_mod::lemma_fundamental_div_mod;
use vstd::arithmetic::div_mod::lemma_fundamental_div_mod_converse_div;
use vstd::arithmetic::div_mod::lemma_mod_division_less_than_divisor;

verus! {

/// One fixed-point multiply-and-round step: `p` and `x` hold values in
/// `[0, 1]` scaled by 65536; the result holds their product, rounded.
pub open spec fn mul_q16(p: int, x: int) -> int {
    (p * x + 32768) / 65536
}

/// Fixed-point power: `x` scaled by 65536, raised to the `n`-th power by
/// repeated rounded multiplication.
pub open spec fn pow_q16(x: int, n: nat) -> int
    decreases n,
{
    if n == 0 {
        65536
    } else {
        mul_q16(pow_q16(x, (n - 1) as nat), x)
    }
}

/// The largest `s` in `[0, y]` with `s * s <= t * 65536`: scanning down
/// from `y`, the exact fixed-point square root of `t` once `y` starts at
/// full scale.
pub open spec fn sqrt_upto(t: int, y: int) -> int
    decreases y,
{
    if y <= 0 {
        0
    } else if y * y <= t * 65536 {
        y
    } else {
        sqrt_upto(t, y - 1)
    }
}

/// Exact fixed-point square root: the largest scaled value whose square,
/// compared at full precision, does not exceed `t`.
pub open spec fn sqrt_q16(t: int) -> int {
    sqrt_upto(t, 65536)
}

/// The largest `f` in `[0, y]` whose fifth power, compared at full
/// precision, does not exceed `t`.
pub open spec fn root5_upto(t: int, y: int) -> int
    decreases y,
{
    if y <= 0 {
        0
    } else if y * y * y * y * y <= t * 65536 * 65536 * 65536 * 65536 {
        y
    } else {
        root5_upto(t, y - 1)
    }
}

/// Exact fixed-point fifth root.
pub open spec fn root5_q16(t: int) -> int {
    root5_upto(t, 65536)
}

/// Fixed-point twentieth root, as the composition of the three exact
/// roots: a fifth root, then two square roots.
pub open spec fn root20_q16(t: int) -> int {
    sqrt_q16(sqrt_q16(root5_q16(t)))
}

/// The intensity index `i` in `[0, 255]` as a rounded fixed-point fraction
/// of full intensity.
pub open spec fn base_q16(i: int) -> int {
    (i * 65536 + 127) / 255
}

/// Fixed-point value of `(i/255) ^ (k/20)`: the whole part of the exponent
/// by repeated multiplication of the base, the fractional part by raising
/// the base's exact twentieth root to `k % 20`.
pub open spec fn curve_q16(i: int, k: int) -> int {
    let x: int = base_q16(i);
    let p: int = pow_q16(x, (k / 20) as nat);
    let y: int = pow_q16(root20_q16(x), (k % 20) as nat);
    mul_q16(p, y)
}

/// The gamma-corrected byte for intensity `i` and gamma `k` twentieths:
/// `255 * (i/255) ^ (k/20)`, rounded, under the fixed-point policy above.
/// A gamma of zero saturates every entry, the zero-power limit of the
/// curve; a zero index under a positive gamma is exactly zero.
pub open spec fn corrected(i: int, k: int) -> int {
    if k == 0 {
        255
    } else if i == 0 {
        0
    } else {
        (255 * curve_q16(i, k) + 32768) / 65536
    }
}

/// A fixed-point power of a value in `[0, 1]` stays in `[0, 1]`.
pub proof fn lemma_pow_q16_range(x: int, n: nat)
    requires
        0 <= x <= 65536,
    ensures
        0 <= pow_q16(x, n) <= 65536,
    decreases n,
{
    if n > 0 {
        lemma_pow_q16_range(x, (n - 1) as nat);
        let p: int = pow_q16(x, (n - 1) as nat);
        assert(0 <= p * x <= 65536 * 65536) by (nonlinear_arith)
            requires
                0 <= p <= 65536,
                0 <= x <= 65536,
        ;
        lemma_div_pos_is_pos(p * x + 32768, 65536);
        lemma_div_is_ordered(p * x + 32768, 65536int * 65536 + 32768, 65536);
    }
}

/// The fixed-point power is monotone in its base.
pub proof fn lemma_pow_q16_mono(x1: int, x2: int, n: nat)
    requires
        0 <= x1 <= x2 <= 65536,
    ensures
        pow_q16(x1, n) <= pow_q16(x2, n),
    decreases n,
{
    if n > 0 {
        lemma_pow_q16_mono(x1, x2, (n - 1) as nat);
        lemma_pow_q16_range(x1, (n - 1) as nat);
        lemma_pow_q16_range(x2, (n - 1) as nat);
        let p1: int = pow_q16(x1, (n - 1) as nat);
        let p2: int = pow_q16(x2, (n - 1) as nat);
        assert(p1 * x1 <= p2 * x2) by (nonlinear_arith)
            requires
                0 <= p1 <= p2,
                0 <= x1 <= x2,
        ;
        lemma_div_is_ordered(p1 * x1 + 32768, p2 * x2 + 32768, 65536);
    }
}

/// Full scale is a fixed point of every fixed-point power.
pub proof fn lemma_pow_q16_at_one(n: nat)
    ensures
        pow_q16(65536, n) == 65536,
    decreases n,
{
    if n > 0 {
        lemma_pow_q16_at_one((n - 1) as nat);
        assert((65536 * 65536 + 32768) / 65536 == 65536);
    }
}

/// The first fixed-point power gives its base back exactly.
pub proof fn lemma_pow_q16_one_step(x: int)
    requires
        0 <= x <= 65536,
    ensures
        pow_q16(x, 1) == x,
{
    assert(pow_q16(x, 0) == 65536);
    assert(pow_q16(x, 1) == (65536 * x + 32768) / 65536);
    lemma_fundamental_div_mod_converse_div(x * 65536 + 32768, 65536, x, 32768);
    assert(65536 * x + 32768 == x * 65536 + 32768);
}

/// Fifth powers of non-negative values preserve order.
proof fn lemma_pow5_mono(a: int, b: int)
    requires
        0 <= a <= b,
    ensures
        a * a * a * a * a <= b * b * b * b * b,
{
    assert(a * a <= b * b) by (nonlinear_arith)
        requires
            0 <= a <= b,
    ;
    assert(a * a * a <= b * b * b) by (nonlinear_arith)
        requires
            0 <= a <= b,
            a * a <= b * b,
            0 <= a * a,
    ;
    assert(a * a * a * a <= b * b * b * b) by (nonlinear_arith)
        requires
            0 <= a <= b,
            a * a * a <= b * b * b,
            0 <= a * a * a,
    ;
    assert(a * a * a * a * a <= b * b * b * b * b) by (nonlinear_arith)
        requires
            0 <= a <= b,
            a * a * a * a <= b * b * b * b,
            0 <= a * a * a * a,
    ;
}

/// What `sqrt_upto` returns: a value whose square fits under `t`, and the
/// largest such value below the cursor.
pub proof fn lemma_sqrt_upto(t: int, y: int)
    requires
        0 <= t,
        0 <= y <= 65536,
    ensures
        0 <= sqrt_upto(t, y) <= y,
        sqrt_upto(t, y) * sqrt_upto(t, y) <= t * 65536,
        forall|z: int| #![trigger z * z] sqrt_upto(t, y) < z <= y ==> z * z > t * 65536,
    decreases y,
{
    if y > 0 && y * y > t * 65536 {
        lemma_sqrt_upto(t, y - 1);
    }
}

/// The exact square root is pinned by its characterization: any value
/// whose square fits under `t`, and whose successor's does not, is it.
pub proof fn lemma_sqrt_unique(t: int, s: int)
    requires
        0 <= t,
        0 <= s <= 65536,
        s * s <= t * 65536,
        s == 65536 || (s + 1) * (s + 1) > t * 65536,
    ensures
        s == sqrt_q16(t),
{
    lemma_sqrt_upto(t, 65536);
    let r: int = sqrt_q16(t);
    if s < r {
        assert((s + 1) * (s + 1) <= r * r) by (nonlinear_arith)
            requires
                0 <= s + 1 <= r,
        ;
    }
}

/// What `root5_upto` returns: a value whose fifth power fits under `t`,
/// and the largest such value below the cursor.
pub proof fn lemma_root5_upto(t: int, y: int)
    requires
        0 <= t,
        0 <= y <= 65536,
    ensures
        0 <= root5_upto(t, y) <= y,
        root5_upto(t, y) * root5_upto(t, y) * root5_upto(t, y) * root5_upto(t, y) * root5_upto(
            t,
            y,
        ) <= t * 65536 * 65536 * 65536 * 65536,
        forall|z: int|
            #![trigger z * z * z * z * z]
            root5_upto(t, y) < z <= y ==> z * z * z * z * z > t * 65536 * 65536 * 65536 * 65536,
    decreases y,
{
    if y > 0 && y * y * y * y * y > t * 65536 * 65536 * 65536 * 65536 {
        lemma_root5_upto(t, y - 1);
    }
}

/// The exact fifth root is pinned by its characterization.
pub proof fn lemma_root5_unique(t: int, s: int)
    requires
        0 <= t,
        0 <= s <= 65536,
        s * s * s * s * s <= t * 65536 * 65536 * 65536 * 65536,
        s == 65536 || (s + 1) * (s + 1) * (s + 1) * (s + 1) * (s + 1) > t * 65536 * 65536 * 65536
            * 65536,
    ensures
        s == root5_q16(t),
{
    lemma_root5_upto(t, 65536);
    let r: int = root5_q16(t);
    if s < r {
        lemma_pow5_mono(s + 1, r);
    }
}

/// The exact square root is monotone in its argument.
pub proof fn lemma_sqrt_mono(t1: int, t2: int)
    requires
        0 <= t1 <= t2,
    ensures
        sqrt_q16(t1) <= sqrt_q16(t2),
{
    lemma_sqrt_upto(t1, 65536);
    lemma_sqrt_upto(t2, 65536);
}

/// The exact fifth root is monotone in its argument.
pub proof fn lemma_root5_mono(t1: int, t2: int)
    requires
        0 <= t1 <= t2,
    ensures
        root5_q16(t1) <= root5_q16(t2),
{
    lemma_root5_upto(t1, 65536);
    lemma_root5_upto(t2, 65536);
}

/// The composed twentieth root stays in `[0, 1]`.
pub proof fn lemma_root20_range(t: int)
    requires
        0 <= t,
    ensures
        0 <= root20_q16(t) <= 65536,
{
    lemma_root5_upto(t, 65536);
    lemma_sqrt_upto(root5_q16(t), 65536);
    lemma_sqrt_upto(sqrt_q16(root5_q16(t)), 65536);
}

/// The composed twentieth root is monotone in its argument.
pub proof fn lemma_root20_mono(t1: int, t2: int)
    requires
        0 <= t1 <= t2,
    ensures
        root20_q16(t1) <= root20_q16(t2),
{
    lemma_root5_mono(t1, t2);
    lemma_root5_upto(t1, 65536);
    lemma_root5_upto(t2, 65536);
    lemma_sqrt_mono(root5_q16(t1), root5_q16(t2));
    lemma_sqrt_upto(root5_q16(t1), 65536);
    lemma_sqrt_upto(root5_q16(t2), 65536);
    lemma_sqrt_mono(sqrt_q16(root5_q16(t1)), sqrt_q16(root5_q16(t2)));
}

/// Full scale is a fixed point of the composed twentieth root.
pub proof fn lemma_root20_at_one()
    ensures
        root20_q16(65536) == 65536,
{
    assert(root5_upto(65536, 65536) == 65536);
    assert(sqrt_upto(65536, 65536) == 65536);
}

/// The base fraction of an in-range index is itself in range, and full
/// intensity maps to full scale exactly.
pub proof fn lemma_base_q16_range(i: int)
    requires
        0 <= i <= 255,
    ensures
        0 <= base_q16(i) <= 65536,
        i == 255 ==> base_q16(i) == 65536,
{
    lemma_div_pos_is_pos(i * 65536 + 127, 255);
    lemma_div_is_ordered(i * 65536 + 127, 255int * 65536 + 127, 255);
    assert((255 * 65536 + 127) / 255 == 65536);
}

/// Clamp invariant: every corrected value lies in `[0, 255]`, whatever the
/// gamma.
pub proof fn lemma_corrected_in_range(i: int, k: int)
    requires
        0 <= i <= 255,
        0 <= k,
    ensures
        0 <= corrected(i, k) <= 255,
{
    if k != 0 && i != 0 {
        let x: int = base_q16(i);
        lemma_base_q16_range(i);
        lemma_pow_q16_range(x, (k / 20) as nat);
        lemma_root20_range(x);
        lemma_pow_q16_range(root20_q16(x), (k % 20) as nat);
        let p: int = pow_q16(x, (k / 20) as nat);
        let y: int = pow_q16(root20_q16(x), (k % 20) as nat);
        assert(0 <= p * y <= 65536 * 65536) by (nonlinear_arith)
            requires
                0 <= p <= 65536,
                0 <= y <= 65536,
        ;
        lemma_div_pos_is_pos(p * y + 32768, 65536);
        lemma_div_is_ordered(p * y + 32768, 65536int * 65536 + 32768, 65536);
        let v: int = mul_q16(p, y);
        assert((65536 * 65536 + 32768) / 65536 == 65536);
        lemma_div_pos_is_pos(255 * v + 32768, 65536);
        lemma_div_is_ordered(255 * v + 32768, 255int * 65536 + 32768, 65536);
        assert((255 * 65536 + 32768) / 65536 == 255);
    }
}

/// Identity at gamma one: with an exponent of exactly one, every index
/// comes back unchanged.
pub proof fn lemma_corrected_identity(i: int)
    requires
        0 <= i <= 255,
    ensures
        corrected(i, 20) == i,
{
    if i != 0 {
        let x: int = base_q16(i);
        lemma_base_q16_range(i);
        lemma_pow_q16_one_step(x);
        assert(pow_q16(root20_q16(x), 0) == 65536);
        assert(curve_q16(i, 20) == mul_q16(x, 65536));
        lemma_fundamental_div_mod_converse_div(x * 65536 + 32768, 65536, x, 32768);
        assert(mul_q16(x, 65536) == x);
        // 255 * x is within 127 of 65536 * i, so the final rounding recovers i.
        lemma_fundamental_div_mod(i * 65536 + 127, 255);
        let rr: int = (i * 65536 + 127) % 255;
        lemma_mod_division_less_than_divisor(i * 65536 + 127, 255);
        assert(255 * x == i * 65536 + 127 - rr);
        assert(255 * x + 32768 == i * 65536 + (32895 - rr));
        lemma_fundamental_div_mod_converse_div(255 * x + 32768, 65536, i, 32895 - rr);
        assert(corrected(i, 20) == i);
    }
}

/// Fixed point at the top of the range: full intensity stays at full
/// intensity for every gamma.
pub proof fn lemma_corrected_full_intensity(k: int)
    requires
        0 <= k,
    ensures
        corrected(255, k) == 255,
{
    if k != 0 {
        lemma_base_q16_range(255);
        lemma_pow_q16_at_one((k / 20) as nat);
        lemma_root20_at_one();
        lemma_pow_q16_at_one((k % 20) as nat);
        assert(curve_q16(255, k) == mul_q16(65536, 65536));
        assert((65536 * 65536 + 32768) / 65536 == 65536);
        assert((255 * 65536 + 32768) / 65536 == 255);
    }
}

/// Saturation at gamma zero: every entry of the table is full intensity.
pub proof fn lemma_corrected_gamma_zero(i: int)
    ensures
        corrected(i, 0) == 255,
{
}

/// The rounded fixed-point product is monotone in both factors.
pub proof fn lemma_mul_q16_mono(p1: int, y1: int, p2: int, y2: int)
    requires
        0 <= p1 <= p2,
        0 <= y1 <= y2,
    ensures
        mul_q16(p1, y1) <= mul_q16(p2, y2),
{
    assert(p1 * y1 <= p2 * y2) by (nonlinear_arith)
        requires
            0 <= p1 <= p2,
            0 <= y1 <= y2,
    ;
    lemma_div_is_ordered(p1 * y1 + 32768, p2 * y2 + 32768, 65536);
}

/// Monotonicity of the whole curve: a brighter input never comes out
/// darker, whatever the gamma, which is what keeps each gradient bar a
/// gradient and the marker trace a single monotone curve.
pub proof fn lemma_corrected_monotone(i1: int, i2: int, k: int)
    requires
        0 <= i1 <= i2 <= 255,
        0 <= k,
    ensures
        corrected(i1, k) <= corrected(i2, k),
{
    lemma_corrected_in_range(i1, k);
    lemma_corrected_in_range(i2, k);
    if k != 0 && i1 != 0 {
        let x1: int = base_q16(i1);
        let x2: int = base_q16(i2);
        lemma_base_q16_range(i1);
        lemma_base_q16_range(i2);
        lemma_div_is_ordered(i1 * 65536 + 127, i2 * 65536 + 127, 255);
        lemma_pow_q16_mono(x1, x2, (k / 20) as nat);
        lemma_pow_q16_range(x1, (k / 20) as nat);
        lemma_pow_q16_range(x2, (k / 20) as nat);
        lemma_root20_mono(x1, x2);
        lemma_root20_range(x1);
        lemma_root20_range(x2);
        lemma_pow_q16_mono(root20_q16(x1), root20_q16(x2), (k % 20) as nat);
        lemma_pow_q16_range(root20_q16(x1), (k % 20) as nat);
        lemma_pow_q16_range(root20_q16(x2), (k % 20) as nat);
        lemma_mul_q16_mono(
            pow_q16(x1, (k / 20) as nat),
            pow_q16(root20_q16(x1), (k % 20) as nat),
            pow_q16(x2, (k / 20) as nat),
            pow_q16(root20_q16(x2), (k % 20) as nat),
        );
        lemma_div_is_ordered(
            255 * curve_q16(i1, k) + 32768,
            255 * curve_q16(i2, k) + 32768,
            65536,
        );
    }
}

fn pow_fixed(x: u64, n: u32) -> (r: u64)
    requires
        x <= 65536,
    ensures
        r as int == pow_q16(x as int, n as nat),
        r <= 65536,
{
    let mut p: u64 = 65536;
    let mut j: u32 = 0;
    while j < n
        invariant
            x <= 65536,
            j <= n,
            p <= 65536,
            p as int == pow_q16(x as int, j as nat),
        decreases n - j,
    {
        proof {
            assert(p * x <= 65536 * 65536) by (nonlinear_arith)
                requires
                    p <= 65536,
                    x <= 65536,
            ;
            lemma_pow_q16_range(x as int, (j + 1) as nat);
        }
        p = (p * x + 32768) / 65536;
        j = j + 1;
    }
    p
}

fn sqrt_fixed(t: u64) -> (s: u64)
    requires
        t <= 65536,
    ensures
        s <= 65536,
        s as int == sqrt_q16(t as int),
{
    let mut lo: u64 = 0;
    let mut hi: u64 = 65536;
    while lo < hi
        invariant
            t <= 65536,
            lo <= hi <= 65536,
            lo as int * lo as int <= t as int * 65536,
            hi < 65536 ==> (hi as int + 1) * (hi as int + 1) > t as int * 65536,
        decreases hi - lo,
    {
        let mid: u64 = (lo + hi + 1) / 2;
        proof {
            lemma_fundamental_div_mod(lo as int + hi as int + 1, 2);
            lemma_mod_division_less_than_divisor(lo as int + hi as int + 1, 2);
            assert(mid as int * mid as int <= 65536 * 65536) by (nonlinear_arith)
                requires
                    mid <= 65536,
            ;
        }
        if mid * mid <= t * 65536 {
            lo = mid;
        } else {
            hi = mid - 1;
        }
    }
    proof {
        lemma_sqrt_unique(t as int, lo as int);
    }
    lo
}

fn root5_fixed(t: u64) -> (f: u64)
    requires
        t <= 65536,
    ensures
        f <= 65536,
        f as int == root5_q16(t as int),
{
    // 65536^4, the scale factor that makes the fifth-power comparison exact.
    let rhs: u128 = (t as u128) * 18446744073709551616u128;
    proof {
        assert(65536int * 65536 * 65536 * 65536 == 18446744073709551616);
    }
    let mut lo: u64 = 0;
    let mut hi: u64 = 65536;
    while lo < hi
        invariant
            t <= 65536,
            lo <= hi <= 65536,
            rhs as int == t as int * 65536 * 65536 * 65536 * 65536,
            lo as int * lo as int * lo as int * lo as int * lo as int <= rhs as int,
            hi < 65536 ==> (hi as int + 1) * (hi as int + 1) * (hi as int + 1) * (hi as int + 1)
                * (hi as int + 1) > rhs as int,
        decreases hi - lo,
    {
        let mid: u64 = (lo + hi + 1) / 2;
        proof {
            lemma_fundamental_div_mod(lo as int + hi as int + 1, 2);
            lemma_mod_division_less_than_divisor(lo as int + hi as int + 1, 2);
            let m: int = mid as int;
            assert(m * m <= 65536 * 65536) by (nonlinear_arith)
                requires
                    0 <= m <= 65536,
            ;
            assert(m * m * m <= 65536 * 65536 * 65536) by (nonlinear_arith)
                requires
                    0 <= m <= 65536,
                    m * m <= 65536 * 65536,
                    0 <= m * m,
            ;
            assert(m * m * m * m <= 65536 * 65536 * 65536 * 65536) by (nonlinear_arith)
                requires
                    0 <= m <= 65536,
                    m * m * m <= 65536 * 65536 * 65536,
                    0 <= m * m * m,
            ;
            assert(m * m * m * m * m <= 65536int * 65536 * 65536 * 65536 * 65536)
                by (nonlinear_arith)
                requires
                    0 <= m <= 65536,
                    m * m * m * m <= 65536 * 65536 * 65536 * 65536,
                    0 <= m * m * m * m,
            ;
        }
        let m128: u128 = mid as u128;
        let m5: u128 = m128 * m128 * m128 * m128 * m128;
        if m5 <= rhs {
            lo = mid;
        } else {
            hi = mid - 1;
        }
    }
    proof {
        lemma_root5_unique(t as int, lo as int);
    }
    lo
}

fn root20_fixed(x: u64) -> (r: u64)
    requires
        x <= 65536,
    ensures
        r <= 65536,
        r as int == root20_q16(x as int),
{
    let f: u64 = root5_fixed(x);
    let s: u64 = sqrt_fixed(f);
    sqrt_fixed(s)
}

/// The gamma-corrected byte for one intensity index, with gamma given in
/// twentieths; the result is pinned to the fixed-point curve `corrected`.
pub fn corrected_value(i: u8, twentieths: u32) -> (c: u8)
    ensures
        c as int == corrected(i as int, twentieths as int),
{
    if twentieths == 0 {
        255
    } else if i == 0 {
        0
    } else {
        let x: u64 = ((i as u64) * 65536 + 127) / 255;
        proof {
            lemma_base_q16_range(i as int);
        }
        let whole: u32 = twentieths / 20;
        let frac: u32 = twentieths % 20;
        let p: u64 = pow_fixed(x, whole);
        let r: u64 = root20_fixed(x);
        let y: u64 = pow_fixed(r, frac);
        proof {
            assert(p * y <= 65536 * 65536) by (nonlinear_arith)
                requires
                    p <= 65536,
                    y <= 65536,
            ;
        }
        let v: u64 = (p * y + 32768) / 65536;
        proof {
            lemma_div_is_ordered(p as int * y as int + 32768, 65536int * 65536 + 32768, 65536);
            assert((65536 * 65536 + 32768) / 65536 == 65536);
            assert(v as int == curve_q16(i as int, twentieths as int));
        }
        let c64: u64 = (255 * v + 32768) / 65536;
        proof {
            lemma_div_is_ordered(255 * v as int + 32768, 255int * 65536 + 32768, 65536);
            assert((255 * 65536 + 32768) / 65536 == 255);
        }
        c64 as u8
    }
}

/// The whole table for gamma `k`, at the spec level: entry `i` is the
/// corrected byte for intensity `i`.
pub open spec fn corrected_table(k: int) -> Seq<u8> {
    Seq::new(256, |i: int| corrected(i, k) as u8)
}

/// The per-frame table of 256 gamma-corrected bytes.
pub struct LookupTable {
    pub entries: Vec<u8>,
}

impl LookupTable {
    /// A well-formed table has one entry for each intensity index.
    pub open spec fn wf(self) -> bool {
        self.entries.len() == 256
    }
}

/// Build the table for one frame: entry `i` is the corrected byte for
/// intensity `i` under the given gamma; the whole table is pinned to
/// `corrected_table`.
pub fn build_lookup(twentieths: u32) -> (table: LookupTable)
    ensures
        table.wf(),
        table.entries@ == corrected_table(twentieths as int),
        forall|j: int|
            0 <= j < 256 ==> #[trigger] table.entries@[j] as int == corrected(
                j,
                twentieths as int,
            ),
{
    let mut entries: Vec<u8> = Vec::new();
    let mut i: usize = 0;
    while i < 256
        invariant
            i <= 256,
            entries.len() == i,
            forall|j: int|
                0 <= j < i ==> #[trigger] entries@[j] as int == corrected(j, twentieths as int),
        decreases 256 - i,
    {
        let c: u8 = corrected_value(i as u8, twentieths);
        entries.push(c);
        i = i + 1;
    }
    proof {
        assert forall|j: int| 0 <= j < 256 implies entries@[j] == corrected_table(
            twentieths as int,
        )[j] by {
            lemma_corrected_in_range(j, twentieths as int);
        }
        assert(entries@ =~= corrected_table(twentieths as int));
    }
    LookupTable { entries }
}

/// Determinism of the table: two tables whose entries are both pinned to
/// `corrected` for the same gamma are equal, so rebuilding the table for an
/// unchanged gamma changes nothing.
pub proof fn lemma_lookup_deterministic(k: int, t1: Seq<u8>, t2: Seq<u8>)
    requires
        t1.len() == 256,
        t2.len() == 256,
        forall|j: int| 0 <= j < 256 ==> #[trigger] t1[j] as int == corrected(j, k),
        forall|j: int| 0 <= j < 256 ==> #[trigger] t2[j] as int == corrected(j, k),
    ensures
        t1 == t2,
{
    assert(t1 =~= t2);
}

} // verus!
