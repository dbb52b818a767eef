//! Fixed-point arithmetic on `i64`.
//!
//! A value `x` stands for the real number `x / SCALE`. Results of every
//! operation are pinned exactly by spec functions over `int`: products and
//! quotients truncate toward zero, and every result is clipped into
//! `[-CLIP, CLIP]`, so the operations are total on well-formed inputs.

use vstd::prelude::*;
use vstd::arithmetic::power2::pow2;

verus! {

/// The fixed-point unit: `SCALE` stands for 1.0 (2^24).
pub const SCALE: i64 = 0x100_0000;

/// Magnitude cap of every fixed-point result (2^62).
pub const CLIP: i64 = 0x4000_0000_0000_0000;

/// `floor(ln(2) * SCALE)`.
pub const LN2: i64 = 11629079;

/// Magnitude of an integer.
pub open spec fn mag(x: int) -> int {
    if x < 0 {
        -x
    } else {
        x
    }
}

/// A fixed-point value the operations accept: within the clip range.
pub open spec fn fix_wf(x: int) -> bool {
    -(CLIP as int) <= x <= CLIP as int
}

/// Clip into `[-CLIP, CLIP]`.
pub open spec fn clip(x: int) -> int {
    if x > CLIP as int {
        CLIP as int
    } else if x < -(CLIP as int) {
        -(CLIP as int)
    } else {
        x
    }
}

/// Scaled product, truncated toward zero (before clipping).
pub open spec fn mul_val(a: int, b: int) -> int {
    let m = (mag(a) * mag(b)) / (SCALE as int);
    if (a < 0) != (b < 0) {
        -m
    } else {
        m
    }
}

/// Scaled quotient, truncated toward zero; division by zero gives zero,
/// as the guarded divisions of the split criteria expect.
pub open spec fn div_val(a: int, b: int) -> int {
    if b == 0 {
        0
    } else {
        let q = (mag(a) * (SCALE as int)) / mag(b);
        if (a < 0) != (b < 0) {
            -q
        } else {
            q
        }
    }
}

/// Fixed-point sum.
pub fn fadd(a: i64, b: i64) -> (r: i64)
    requires
        fix_wf(a as int),
        fix_wf(b as int),
    ensures
        r as int == clip(a + b),
        fix_wf(r as int),
{
    let s: i128 = a as i128 + b as i128;
    if s > CLIP as i128 {
        CLIP
    } else if s < -(CLIP as i128) {
        -CLIP
    } else {
        s as i64
    }
}

/// Fixed-point difference.
pub fn fsub(a: i64, b: i64) -> (r: i64)
    requires
        fix_wf(a as int),
        fix_wf(b as int),
    ensures
        r as int == clip(a - b),
        fix_wf(r as int),
{
    let s: i128 = a as i128 - b as i128;
    if s > CLIP as i128 {
        CLIP
    } else if s < -(CLIP as i128) {
        -CLIP
    } else {
        s as i64
    }
}

/// Fixed-point product.
pub fn fmul(a: i64, b: i64) -> (r: i64)
    requires
        fix_wf(a as int),
        fix_wf(b as int),
    ensures
        r as int == clip(mul_val(a as int, b as int)),
        fix_wf(r as int),
{
    let neg: bool = (a < 0) != (b < 0);
    let ua: u128 = (if a >= 0 { a } else { -a }) as u128;
    let ub: u128 = (if b >= 0 { b } else { -b }) as u128;
    proof {
        assert(ua * ub <= (CLIP as u128) * (CLIP as u128)) by (nonlinear_arith)
            requires
                ua <= CLIP as u128,
                ub <= CLIP as u128,
        ;
    }
    let p: u128 = (ua * ub) / (SCALE as u128);
    let m: i64 = if p > CLIP as u128 {
        CLIP
    } else {
        p as i64
    };
    if neg {
        -m
    } else {
        m
    }
}

/// Fixed-point quotient; zero denominator gives zero.
pub fn fdiv(a: i64, b: i64) -> (r: i64)
    requires
        fix_wf(a as int),
        fix_wf(b as int),
    ensures
        r as int == clip(div_val(a as int, b as int)),
        fix_wf(r as int),
{
    if b == 0 {
        return 0;
    }
    let neg: bool = (a < 0) != (b < 0);
    let ua: u128 = (if a >= 0 { a } else { -a }) as u128;
    let ub: u128 = (if b >= 0 { b } else { -b }) as u128;
    let q: u128 = (ua * (SCALE as u128)) / ub;
    let m: i64 = if q > CLIP as u128 {
        CLIP
    } else {
        q as i64
    };
    if neg {
        -m
    } else {
        m
    }
}

/// Position of the highest set bit: `pow2(msb(x)) <= x < pow2(msb(x) + 1)`.
pub open spec fn msb(x: int) -> nat
    decreases x,
{
    if x < 2 {
        0
    } else {
        (1 + msb(x / 2)) as nat
    }
}

pub proof fn lemma_msb_bounds(x: int)
    requires
        1 <= x,
    ensures
        pow2(msb(x)) <= x < pow2(msb(x) + 1),
    decreases x,
{
    vstd::arithmetic::power2::lemma_pow2_unfold(msb(x) + 1);
    if x < 2 {
        vstd::arithmetic::power2::lemma_pow2(0);
        vstd::arithmetic::power::lemma_pow0(2);
    } else {
        lemma_msb_bounds(x / 2);
        vstd::arithmetic::power2::lemma_pow2_unfold(msb(x));
    }
}

/// Mantissa of `x` normalized into `[SCALE, 2 * SCALE)`.
pub open spec fn mant(x: int) -> int {
    (x * (SCALE as int)) / (pow2(msb(x)) as int)
}

/// Fractional part of the binary logarithm of a mantissa in
/// `[SCALE, 2 * SCALE)`, to `i` bits, as a fixed-point value in `[0, SCALE)`
/// when `i == 24`.
pub open spec fn log2_frac(m: int, i: nat) -> int
    decreases i,
{
    if i == 0 {
        0
    } else {
        let m2 = (m * m) / (SCALE as int);
        if m2 >= 2 * (SCALE as int) {
            pow2((i - 1) as nat) + log2_frac(m2 / 2, (i - 1) as nat)
        } else {
            log2_frac(m2, (i - 1) as nat)
        }
    }
}

/// Natural logarithm of the fixed-point value `x`, as the product of the
/// approximate binary logarithm with `LN2`.
pub open spec fn ln_val(x: int) -> int {
    mul_val((msb(x) - 24) * (SCALE as int) + log2_frac(mant(x), 24), LN2 as int)
}

pub proof fn lemma_log2_frac_bounds(m: int, i: nat)
    requires
        0 <= m,
    ensures
        0 <= log2_frac(m, i) < pow2(i),
    decreases i,
{
    if i == 0 {
        vstd::arithmetic::power2::lemma_pow2(0);
        vstd::arithmetic::power::lemma_pow0(2);
    } else {
        vstd::arithmetic::power2::lemma_pow2_unfold(i);
        let m2 = (m * m) / (SCALE as int);
        assert(0 <= m * m) by (nonlinear_arith)
            requires
                0 <= m,
        ;
        lemma_log2_frac_bounds(m2 / 2, (i - 1) as nat);
        lemma_log2_frac_bounds(m2, (i - 1) as nat);
    }
}

/// Exact power of two, for the logarithm's bit weights.
fn pot2(k: u64) -> (r: i64)
    requires
        k <= 62,
    ensures
        r as int == pow2(k as nat),
        1 <= r,
{
    let mut j: u64 = 0;
    let mut r: i64 = 1;
    proof {
        vstd::arithmetic::power2::lemma_pow2(0);
        vstd::arithmetic::power::lemma_pow0(2);
    }
    while j < k
        invariant
            j <= k <= 62,
            r as int == pow2(j as nat),
            1 <= r,
        decreases k - j,
    {
        proof {
            vstd::arithmetic::power2::lemma_pow2_unfold((j + 1) as nat);
            vstd::arithmetic::power2::lemma2_to64();
            vstd::arithmetic::power2::lemma2_to64_rest();
            vstd::arithmetic::power2::lemma_pow2_strictly_increases((j + 1) as nat, 63);
        }
        r = r * 2;
        j = j + 1;
    }
    r
}

/// `msb` from an upper bound: a value below `pow2(k + 1)` has `msb` at most `k`.
pub proof fn lemma_msb_le(x: int, k: nat)
    requires
        1 <= x,
        x < pow2((k + 1) as nat),
    ensures
        msb(x) <= k,
{
    lemma_msb_bounds(x);
    if msb(x) > k {
        if msb(x) == k + 1 {
        } else {
            vstd::arithmetic::power2::lemma_pow2_strictly_increases((k + 1) as nat, msb(x));
        }
        assert(false);
    }
}

/// A scaled product by a factor of at most one does not grow the magnitude.
pub proof fn lemma_mul_val_bound(a: int, b: int, c: int)
    requires
        mag(a) <= c,
        0 <= b <= SCALE as int,
    ensures
        mag(mul_val(a, b)) <= c,
{
    assert(mag(a) * mag(b) <= c * (SCALE as int)) by (nonlinear_arith)
        requires
            0 <= mag(a) <= c,
            0 <= mag(b) <= SCALE as int,
    ;
    vstd::arithmetic::div_mod::lemma_div_is_ordered(
        mag(a) * mag(b),
        c * (SCALE as int),
        SCALE as int,
    );
    vstd::arithmetic::div_mod::lemma_div_multiples_vanish(c, SCALE as int);
    assert((SCALE as int) * c == c * (SCALE as int)) by (nonlinear_arith);
    vstd::arithmetic::div_mod::lemma_div_pos_is_pos(mag(a) * mag(b), SCALE as int);
}

/// Fixed-point natural logarithm, defined for positive values.
pub fn fln(x: i64) -> (r: i64)
    requires
        1 <= x,
        fix_wf(x as int),
    ensures
        r as int == ln_val(x as int),
        -64 * (SCALE as int) <= r as int <= 64 * (SCALE as int),
{
    proof {
        vstd::arithmetic::power2::lemma2_to64();
        vstd::arithmetic::power2::lemma2_to64_rest();
        lemma_msb_le(x as int, 62);
    }
    let mut t: u64 = x as u64;
    let mut p: u64 = 0;
    while t >= 2
        invariant
            1 <= t,
            msb(x as int) == p + msb(t as int),
            msb(x as int) <= 62,
        decreases t,
    {
        t = t / 2;
        p = p + 1;
    }
    // t < 2, so msb(t) == 0 and p == msb(x).
    proof {
        assert(p == msb(x as int));
        lemma_msb_bounds(x as int);
        vstd::arithmetic::power2::lemma_pow2_unfold((p + 1) as nat);
    }
    let ghost gm: int = (x as int) * (SCALE as int) / (pow2(p as nat) as int);
    let m0: u64 = if p >= 24 {
        let d: i64 = pot2(p - 24);
        proof {
            vstd::arithmetic::power2::lemma_pow2_adds(24, (p - 24) as nat);
            vstd::arithmetic::div_mod::lemma_div_denominator(
                (x as int) * (SCALE as int),
                SCALE as int,
                pow2((p - 24) as nat) as int,
            );
            vstd::arithmetic::div_mod::lemma_div_multiples_vanish(x as int, SCALE as int);
            assert((SCALE as int) * (x as int) == (x as int) * (SCALE as int)) by (
            nonlinear_arith);
            assert((SCALE as int) * (pow2((p - 24) as nat) as int) == pow2(p as nat) as int);
        }
        (x as u64) / (d as u64)
    } else {
        let d: i64 = pot2(24 - p);
        proof {
            vstd::arithmetic::power2::lemma_pow2_adds(p as nat, (24 - p) as nat);
            vstd::arithmetic::power2::lemma_pow2_adds((p + 1) as nat, (24 - p) as nat);
            assert((x as int) * (pow2((24 - p) as nat) as int) < pow2(25) as int) by (
            nonlinear_arith)
                requires
                    (x as int) < pow2((p + 1) as nat) as int,
                    0 < pow2((24 - p) as nat) as int,
                    pow2((p + 1) as nat) * pow2((24 - p) as nat) == pow2(25),
                    0 < x as int,
            ;
            assert((x as int) * (pow2((24 - p) as nat) as int) == (x as int) * (SCALE as int)
                / (pow2(p as nat) as int)) by (nonlinear_arith)
                requires
                    (pow2(p as nat) * pow2((24 - p) as nat)) as int == SCALE as int,
                    0 < pow2(p as nat) as int,
            ;
        }
        (x as u64) * (d as u64)
    };
    proof {
        assert((SCALE as int) <= gm && gm < 2 * (SCALE as int)) by (nonlinear_arith)
            requires
                gm == (x as int) * (SCALE as int) / (pow2(p as nat) as int),
                pow2(p as nat) as int <= x as int,
                (x as int) < 2 * (pow2(p as nat) as int),
                0 < pow2(p as nat) as int,
                SCALE as int == 0x100_0000,
        ;
    }
    // Extract 24 fraction bits of log2(m0 / SCALE) by repeated squaring.
    let ghost mstart: int = m0 as int;
    let mut m: u64 = m0;
    let mut acc: i64 = 0;
    let mut i: u64 = 24;
    while i > 0
        invariant
            i <= 24,
            (SCALE as u64) <= m && m < 2 * (SCALE as u64),
            acc as int + log2_frac(m as int, i as nat) == log2_frac(mstart, 24),
            0 <= acc as int <= pow2(24) as int - pow2(i as nat) as int,
        decreases i,
    {
        proof {
            vstd::arithmetic::power2::lemma_pow2_pos(i as nat);
            vstd::arithmetic::power2::lemma2_to64();
            assert((m as u128) * (m as u128) < (4 * (SCALE as u128)) * (SCALE as u128)) by (
            nonlinear_arith)
                requires
                    0 <= (m as u128) && (m as u128) < 2 * (SCALE as u128),
            ;
            assert((SCALE as u128) * (SCALE as u128) <= (m as u128) * (m as u128)) by (
            nonlinear_arith)
                requires
                    (SCALE as u128) <= (m as u128),
            ;
        }
        proof {
            assert((4 * (SCALE as u128)) * (SCALE as u128) < u128::MAX) by (nonlinear_arith);
        }
        let sq: u128 = (m as u128) * (m as u128);
        proof {
            assert((SCALE as u128) <= sq / (SCALE as u128) && sq / (SCALE as u128) < 4 * (
            SCALE as u128)) by (nonlinear_arith)
                requires
                    (SCALE as u128) * (SCALE as u128) <= sq,
                    sq < (4 * (SCALE as u128)) * (SCALE as u128),
                    0 < SCALE as u128,
            ;
        }
        let m2: u64 = (sq / (SCALE as u128)) as u64;
        proof {
            assert(m2 as int == (m as int) * (m as int) / (SCALE as int));
            lemma_log2_frac_bounds(m2 as int, (i - 1) as nat);
            lemma_log2_frac_bounds(m2 as int / 2, (i - 1) as nat);
            vstd::arithmetic::power2::lemma_pow2_unfold(i as nat);
        }
        if m2 >= 2 * (SCALE as u64) {
            let w: i64 = pot2(i - 1);
            acc = acc + w;
            m = m2 / 2;
        } else {
            m = m2;
        }
        i = i - 1;
    }
    proof {
        vstd::arithmetic::power2::lemma2_to64();
        assert(acc as int == log2_frac(mant(x as int), 24));
    }
    let e: i64 = (p as i64 - 24) * SCALE + acc;
    let r = fmul(e, LN2);
    proof {
        lemma_mul_val_bound(e as int, LN2 as int, 63 * (SCALE as int));
    }
    r
}


/// A quotient with a numerator at most the denominator is at most one.
pub proof fn lemma_div_val_le_scale(a: int, b: int)
    requires
        0 <= a <= b,
    ensures
        0 <= div_val(a, b) <= SCALE as int,
{
    if b != 0 {
        assert(a * (SCALE as int) <= b * (SCALE as int)) by (nonlinear_arith)
            requires
                0 <= a <= b,
        ;
        vstd::arithmetic::div_mod::lemma_div_is_ordered(
            a * (SCALE as int),
            b * (SCALE as int),
            b,
        );
        vstd::arithmetic::div_mod::lemma_div_multiples_vanish(SCALE as int, b);
        assert(b * (SCALE as int) == (SCALE as int) * b) by (nonlinear_arith);
        vstd::arithmetic::div_mod::lemma_div_pos_is_pos(a * (SCALE as int), b);
        assert(0 <= a * (SCALE as int)) by (nonlinear_arith)
            requires
                0 <= a,
        ;
    }
}

/// Scaling a nonnegative value by a probability cannot grow it.
pub proof fn lemma_mul_val_prob(p: int, c: int)
    requires
        0 <= p <= SCALE as int,
        0 <= c,
    ensures
        0 <= mul_val(p, c) <= c,
{
    assert(p * c <= (SCALE as int) * c) by (nonlinear_arith)
        requires
            0 <= p <= SCALE as int,
            0 <= c,
    ;
    assert(0 <= p * c) by (nonlinear_arith)
        requires
            0 <= p,
            0 <= c,
    ;
    vstd::arithmetic::div_mod::lemma_div_is_ordered(p * c, (SCALE as int) * c, SCALE as int);
    vstd::arithmetic::div_mod::lemma_div_multiples_vanish(c, SCALE as int);
    vstd::arithmetic::div_mod::lemma_div_pos_is_pos(p * c, SCALE as int);
}

/// A quotient is at least one when the scaled numerator reaches the
/// denominator.
pub proof fn lemma_div_val_ge_one(a: int, b: int)
    requires
        0 < b <= a * (SCALE as int),
        0 <= a,
    ensures
        div_val(a, b) >= 1,
{
    vstd::arithmetic::div_mod::lemma_div_is_ordered(b, a * (SCALE as int), b);
    vstd::arithmetic::div_mod::lemma_div_by_multiple(1, b);
}


/// The fixed-point logarithm of any in-range value is small.
pub proof fn lemma_ln_val_bounds(x: int)
    requires
        1 <= x <= CLIP as int,
    ensures
        -64 * (SCALE as int) <= ln_val(x) <= 64 * (SCALE as int),
{
    vstd::arithmetic::power2::lemma2_to64();
    vstd::arithmetic::power2::lemma2_to64_rest();
    lemma_msb_le(x, 62);
    lemma_msb_bounds(x);
    let mx = mant(x);
    vstd::arithmetic::power2::lemma_pow2_pos(msb(x));
    assert(0 <= x * (SCALE as int)) by (nonlinear_arith)
        requires
            0 <= x,
            0 <= SCALE as int,
    ;
    vstd::arithmetic::div_mod::lemma_div_pos_is_pos(x * (SCALE as int), pow2(msb(x)) as int);
    lemma_log2_frac_bounds(mx, 24);
    let e_term = (msb(x) - 24) * (SCALE as int) + log2_frac(mx, 24);
    assert(-24 * (SCALE as int) <= (msb(x) - 24) * (SCALE as int) <= 62 * (SCALE as int)) by (
    nonlinear_arith)
        requires
            0 <= msb(x) <= 62,
            SCALE as int == 0x100_0000,
    ;
    lemma_mul_val_bound(e_term, LN2 as int, 63 * (SCALE as int));
}


proof fn lemma_log2_frac_scale(i: nat)
    ensures
        log2_frac(SCALE as int, i) == 0,
    decreases i,
{
    if i > 0 {
        assert((SCALE as int) * (SCALE as int) / (SCALE as int) == SCALE as int) by (
        nonlinear_arith);
        lemma_log2_frac_scale((i - 1) as nat);
    }
}

/// The logarithm of a value of at most one is at most zero.
pub proof fn lemma_ln_val_nonpos(x: int)
    requires
        1 <= x <= SCALE as int,
    ensures
        ln_val(x) <= 0,
{
    vstd::arithmetic::power2::lemma2_to64();
    if x == SCALE as int {
        lemma_msb_le(x, 24);
        lemma_msb_bounds(x);
        assert(msb(x) == 24);
        vstd::arithmetic::div_mod::lemma_div_multiples_vanish(SCALE as int, SCALE as int);
        assert((pow2(24) as int) * (SCALE as int) == (SCALE as int) * (SCALE as int)) by (
        nonlinear_arith)
            requires
                pow2(24) as int == SCALE as int,
        ;
        assert(mant(x) == SCALE as int);
        lemma_log2_frac_scale(24);
        assert(ln_val(x) == mul_val(0, LN2 as int));
    } else {
        lemma_msb_le(x, 23);
        let mx = mant(x);
        vstd::arithmetic::power2::lemma_pow2_pos(msb(x));
        assert(0 <= x * (SCALE as int)) by (nonlinear_arith)
            requires
                0 <= x,
        ;
        vstd::arithmetic::div_mod::lemma_div_pos_is_pos(x * (SCALE as int), pow2(msb(x)) as int);
        lemma_log2_frac_bounds(mx, 24);
        let e_term = (msb(x) - 24) * (SCALE as int) + log2_frac(mx, 24);
        assert((msb(x) - 24) * (SCALE as int) <= -(SCALE as int)) by (nonlinear_arith)
            requires
                msb(x) <= 23,
                SCALE as int == 0x100_0000,
        ;
        assert(e_term < 0);
        assert(mul_val(e_term, LN2 as int) <= 0) by {
            assert(0 <= mag(e_term) * mag(LN2 as int)) by (nonlinear_arith)
                requires
                    0 <= mag(e_term),
                    0 <= mag(LN2 as int),
            ;
            vstd::arithmetic::div_mod::lemma_div_pos_is_pos(
                mag(e_term) * mag(LN2 as int),
                SCALE as int,
            );
        }
    }
}

/// A product of nonnegative fixed-point values is nonnegative.
pub proof fn lemma_mul_val_nonneg(a: int, b: int)
    requires
        0 <= a,
        0 <= b,
    ensures
        0 <= mul_val(a, b),
        0 <= clip(mul_val(a, b)),
{
    assert(0 <= a * b) by (nonlinear_arith)
        requires
            0 <= a,
            0 <= b,
    ;
    vstd::arithmetic::div_mod::lemma_div_pos_is_pos(a * b, SCALE as int);
}

/// A quotient of nonnegative fixed-point values is nonnegative.
pub proof fn lemma_div_val_nonneg(a: int, b: int)
    requires
        0 <= a,
        0 <= b,
    ensures
        0 <= div_val(a, b),
        0 <= clip(div_val(a, b)),
{
    if b != 0 {
        assert(0 <= mag(a) * (SCALE as int)) by (nonlinear_arith)
            requires
                0 <= mag(a),
        ;
        vstd::arithmetic::div_mod::lemma_div_pos_is_pos(mag(a) * (SCALE as int), mag(b));
    }
}

/// Scaling a nonpositive value by a nonnegative one stays nonpositive.
pub proof fn lemma_mul_val_nonpos(a: int, b: int)
    requires
        0 <= a,
        b <= 0,
    ensures
        mul_val(a, b) <= 0,
        clip(mul_val(a, b)) <= 0,
{
    assert(0 <= mag(a) * mag(b)) by (nonlinear_arith)
        requires
            0 <= mag(a),
            0 <= mag(b),
    ;
    vstd::arithmetic::div_mod::lemma_div_pos_is_pos(mag(a) * mag(b), SCALE as int);
    if b == 0 {
        assert(mag(a) * mag(b) == 0) by (nonlinear_arith)
            requires
                mag(b) == 0,
        ;
    }
}

} // verus!



