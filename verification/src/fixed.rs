//! Fixed-point scalars: every coordinate, distance and colour channel in this
//! crate is a signed count of `1/SCALE` units stored in an `i64`.  All
//! arithmetic rounds toward zero, so each operation has an exact
//! integer-valued specification.

use vstd::prelude::*;

verus! {

use vstd::arithmetic::div_mod::{
    lemma_div_is_ordered,
    lemma_div_nonincreasing,
    lemma_div_pos_is_pos,
    lemma_multiply_divide_le,
};

/// Number of fixed-point units in 1.0.
pub const SCALE: i64 = 65536;

/// One half, in fixed-point units.
pub const HALF: i64 = 32768;

/// Representable as a 64-bit signed scalar.
pub open spec fn in64(x: int) -> bool {
    i64::MIN <= x <= i64::MAX
}

/// Magnitude of an integer.
pub open spec fn iabs(a: int) -> int {
    if a >= 0 {
        a
    } else {
        -a
    }
}

/// Truncated (round-toward-zero) division, the rounding used by every
/// division in this crate.  Matches Rust's `/` on signed integers.
pub open spec fn tdiv(a: int, b: int) -> int {
    if a == 0 {
        0
    } else if a > 0 && b > 0 {
        a / b
    } else if a < 0 && b < 0 {
        (a * -1) / (b * -1)
    } else if a < 0 {
        ((a * -1) / b) * -1
    } else {
        (a / (b * -1)) * -1
    }
}

/// Fixed-point product: `a * b` rescaled back into units of `1/SCALE`.
pub open spec fn fxmul(a: int, b: int) -> int {
    tdiv(a * b, SCALE as int)
}

/// Fixed-point quotient: `a / b` rescaled into units of `1/SCALE`.
pub open spec fn fxdiv(a: int, b: int) -> int {
    tdiv(a * SCALE, b)
}

/// Integer square root, defined by counting up; `lemma_isqrt_bounds` gives
/// the usual characterisation.
pub open spec fn isqrt(n: nat) -> nat
    decreases n,
{
    if n == 0 {
        0
    } else {
        let r = isqrt((n - 1) as nat);
        if (r + 1) * (r + 1) <= n {
            r + 1
        } else {
            r
        }
    }
}

/// Fixed-point square root of a non-negative scalar, rounded down.
pub open spec fn fxsqrt(a: int) -> int {
    isqrt((a * SCALE) as nat) as int
}

pub proof fn lemma_isqrt_bounds(n: nat)
    ensures
        isqrt(n) * isqrt(n) <= n,
        n < (isqrt(n) + 1) * (isqrt(n) + 1),
    decreases n,
{
    if n == 0 {
        assert(isqrt(n) == 0);
        assert(n < (isqrt(n) + 1) * (isqrt(n) + 1)) by (nonlinear_arith)
            requires
                n == 0,
                isqrt(n) == 0,
        {}
    } else {
        lemma_isqrt_bounds((n - 1) as nat);
        let r = isqrt((n - 1) as nat);
        let s = isqrt(n);
        if (r + 1) * (r + 1) <= n {
            assert(n < (s + 1) * (s + 1)) by (nonlinear_arith)
                requires
                    s == r + 1,
                    r >= 0,
                    n - 1 < (r + 1) * (r + 1),
            {}
        } else {
            assert(s == r);
            assert(r * r <= n - 1);
        }
    }
}

pub proof fn lemma_isqrt_unique(n: nat, r: nat)
    requires
        r * r <= n,
        n < (r + 1) * (r + 1),
    ensures
        r == isqrt(n),
{
    lemma_isqrt_bounds(n);
    let s = isqrt(n);
    assert(r == s) by (nonlinear_arith)
        requires
            r * r <= n,
            n < (r + 1) * (r + 1),
            s * s <= n,
            n < (s + 1) * (s + 1),
            r >= 0,
            s >= 0,
    {}
}

/// Any `r` whose square does not exceed `n` is a lower bound for `isqrt(n)`.
pub proof fn lemma_isqrt_at_least(n: nat, r: nat)
    requires
        r * r <= n,
    ensures
        isqrt(n) >= r,
{
    lemma_isqrt_bounds(n);
    let s = isqrt(n);
    assert(s >= r) by (nonlinear_arith)
        requires
            r * r <= n,
            n < (s + 1) * (s + 1),
            r >= 0,
            s >= 0,
    {}
}

/// The magnitude of a truncated quotient is the quotient of the magnitudes.
pub proof fn lemma_tdiv_mag(a: int, b: int)
    requires
        b != 0,
    ensures
        iabs(tdiv(a, b)) == iabs(a) / iabs(b),
        iabs(tdiv(a, b)) <= iabs(a),
{
    let x = iabs(a);
    let d = iabs(b);
    if x != 0 {
        lemma_div_pos_is_pos(x, d);
        lemma_div_nonincreasing(x, d);
    }
}

/// Truncated quotients stay below any `m` with `iabs(a) <= m * iabs(b)`.
pub proof fn lemma_tdiv_le(a: int, b: int, m: int)
    requires
        b != 0,
        0 <= m,
        iabs(a) <= m * iabs(b),
    ensures
        iabs(tdiv(a, b)) <= m,
{
    lemma_tdiv_mag(a, b);
    let x = iabs(a);
    let d = iabs(b);
    assert(x <= d * m) by (nonlinear_arith)
        requires
            x <= m * d,
    {}
    lemma_multiply_divide_le(x, d, m);
}

/// Bound on a fixed-point product from bounds on its factors.
pub proof fn lemma_fxmul_bound(a: int, b: int, ma: int, mb: int)
    requires
        0 <= ma,
        0 <= mb,
        iabs(a) <= ma,
        iabs(b) <= mb,
    ensures
        iabs(fxmul(a, b)) <= ma * mb / (SCALE as int),
        iabs(fxmul(a, b)) <= ma * mb,
{
    assert(iabs(a * b) <= ma * mb) by (nonlinear_arith)
        requires
            iabs(a) <= ma,
            iabs(b) <= mb,
            0 <= ma,
            0 <= mb,
    {}
    lemma_tdiv_mag(a * b, SCALE as int);
    lemma_div_is_ordered(iabs(a * b), ma * mb, SCALE as int);
    lemma_div_nonincreasing(ma * mb, SCALE as int);
    lemma_div_pos_is_pos(ma * mb, SCALE as int);
    assert(ma * mb >= 0) by (nonlinear_arith)
        requires
            0 <= ma,
            0 <= mb,
    {}
}

/// Multiplying by one full unit is the identity.
pub proof fn lemma_fxmul_scale_identity(x: int)
    ensures
        fxmul(SCALE as int, x) == x,
{
    if x >= 0 {
        lemma_div_multiples_vanish_local(x);
    } else {
        assert((SCALE as int) * x * -1 == (SCALE as int) * (-x)) by (nonlinear_arith) {}
        lemma_div_multiples_vanish_local(-x);
    }
}

proof fn lemma_div_multiples_vanish_local(x: int)
    requires
        x >= 0,
    ensures
        ((SCALE as int) * x) / (SCALE as int) == x,
{
    vstd::arithmetic::div_mod::lemma_div_multiples_vanish(x, SCALE as int);
}

/// Truncated division is odd in its dividend: negating `a` negates the
/// quotient.
pub proof fn lemma_tdiv_neg(a: int, b: int)
    requires
        b != 0,
    ensures
        tdiv(-a, b) == -tdiv(a, b),
{
}

/// Truncated division by a positive divisor is monotone in the dividend.
pub proof fn lemma_tdiv_monotone(x: int, y: int, d: int)
    requires
        x <= y,
        0 < d,
    ensures
        tdiv(x, d) <= tdiv(y, d),
{
    if 0 <= x {
        lemma_div_is_ordered(x, y, d);
        lemma_div_pos_is_pos(x, d);
        lemma_div_pos_is_pos(y, d);
    } else if y <= 0 {
        lemma_div_is_ordered(-y, -x, d);
        lemma_div_pos_is_pos(-y, d);
        lemma_div_pos_is_pos(-x, d);
    } else {
        lemma_div_pos_is_pos(-x, d);
        lemma_div_pos_is_pos(y, d);
    }
}

/// Truncated division of an `i128`, through the checked operation.
fn tdiv_i128(n: i128, d: i128) -> (q: i128)
    requires
        d != 0,
        i128::MIN <= tdiv(n as int, d as int) <= i128::MAX,
    ensures
        q as int == tdiv(n as int, d as int),
{
    n.checked_div(d).unwrap()
}

/// Truncated division of two raw scalars (no rescaling), for a positive
/// divisor.
pub fn fx_tdiv(a: i64, b: i64) -> (r: i64)
    requires
        b > 0,
    ensures
        r as int == tdiv(a as int, b as int),
{
    proof {
        lemma_tdiv_mag(a as int, b as int);
    }
    tdiv_i128(a as i128, b as i128) as i64
}

/// Exact fixed-point sum.
pub fn fx_add(a: i64, b: i64) -> (r: i64)
    requires
        i64::MIN <= a + b <= i64::MAX,
    ensures
        r == a + b,
{
    a + b
}

/// Exact fixed-point difference.
pub fn fx_sub(a: i64, b: i64) -> (r: i64)
    requires
        i64::MIN <= a - b <= i64::MAX,
    ensures
        r == a - b,
{
    a - b
}

/// Fixed-point product, rounded toward zero.
pub fn fx_mul(a: i64, b: i64) -> (r: i64)
    requires
        i64::MIN <= fxmul(a as int, b as int) <= i64::MAX,
    ensures
        r as int == fxmul(a as int, b as int),
{
    proof {
        assert(i128::MIN <= (a as int) * (b as int) <= i128::MAX) by (nonlinear_arith)
            requires
                -0x8000_0000_0000_0000 <= a as int <= 0x7FFF_FFFF_FFFF_FFFF,
                -0x8000_0000_0000_0000 <= b as int <= 0x7FFF_FFFF_FFFF_FFFF,
        {}
    }
    let p: i128 = (a as i128) * (b as i128);
    proof {
        lemma_tdiv_mag(p as int, 65536);
    }
    let q: i128 = tdiv_i128(p, 65536i128);
    q as i64
}

/// Fixed-point quotient, rounded toward zero.
pub fn fx_div(a: i64, b: i64) -> (r: i64)
    requires
        b != 0,
        i64::MIN <= fxdiv(a as int, b as int) <= i64::MAX,
    ensures
        r as int == fxdiv(a as int, b as int),
{
    let p: i128 = (a as i128) * 65536i128;
    proof {
        lemma_tdiv_mag(p as int, b as int);
    }
    let q: i128 = tdiv_i128(p, b as i128);
    q as i64
}

/// Integer square root of a `u128`, by binary search.
pub fn isqrt_u128(n: u128) -> (r: u128)
    requires
        n < 0x4000_0000_0000_0000_0000_0000_0000_0000u128,
    ensures
        r as nat == isqrt(n as nat),
        r * r <= n,
        n < (r + 1) * (r + 1),
{
    let mut lo: u128 = 0;
    let mut hi: u128 = 0x8000_0000_0000_0000u128;
    proof {
        assert(hi * hi > n) by (nonlinear_arith)
            requires
                hi == 0x8000_0000_0000_0000u128,
                n < 0x4000_0000_0000_0000_0000_0000_0000_0000u128,
        {}
    }
    while lo + 1 < hi
        invariant
            lo < hi,
            hi <= 0x8000_0000_0000_0000u128,
            lo * lo <= n,
            n < hi * hi,
        decreases hi - lo,
    {
        let mid: u128 = lo + (hi - lo) / 2;
        proof {
            assert(lo < mid < hi);
            assert(mid * mid <= 0x4000_0000_0000_0000_0000_0000_0000_0000u128) by (nonlinear_arith)
                requires
                    mid <= 0x8000_0000_0000_0000u128,
            {}
        }
        if mid * mid <= n {
            lo = mid;
        } else {
            hi = mid;
        }
    }
    proof {
        lemma_isqrt_unique(n as nat, lo as nat);
    }
    lo
}

/// Fixed-point square root of a non-negative scalar, rounded down.
pub fn fx_sqrt(a: i64) -> (r: i64)
    requires
        a >= 0,
    ensures
        r as int == fxsqrt(a as int),
        r >= 0,
{
    let n: u128 = (a as u128) * 65536u128;
    let r = isqrt_u128(n);
    proof {
        lemma_isqrt_bounds(n as nat);
        assert(r < 0x8000_0000_0000_0000u128) by (nonlinear_arith)
            requires
                r * r <= n,
                n <= 0x7FFF_FFFF_FFFF_FFFFu128 * 0x1_0000u128,
        {}
    }
    r as i64
}

} // verus!
