//! Fixed-point scalar and vector arithmetic.
//!
//! All simulation state the synchronization layer manages is held in signed
//! 64-bit fixed-point units (`FX_ONE` per world unit), so that every peer
//! computes bit-identical values — the determinism the rollback scheduler
//! depends on cannot be had from floating point.

use vstd::prelude::*;

verus! {

/// Fixed-point scale: this many units make one world unit.
pub const FX_ONE: i64 = 1000;

/// Largest magnitude a direction component may have before length clamping
/// (two saturated basis vectors added together).
pub const DIR_BOUND: i64 = 2 * FX_ONE;

/// A three-component fixed-point vector.
#[derive(Clone, Copy, Debug, PartialEq, Eq, Structural)]
pub struct Vec3Fx {
    pub x: i64,
    pub y: i64,
    pub z: i64,
}

impl Vec3Fx {
    /// The zero vector.
    pub open spec fn spec_zero() -> Vec3Fx {
        Vec3Fx { x: 0, y: 0, z: 0 }
    }

    /// The zero vector.
    pub fn zero() -> (v: Vec3Fx)
        ensures
            v == Vec3Fx::spec_zero(),
    {
        Vec3Fx { x: 0, y: 0, z: 0 }
    }
}

/// Saturating signed addition.
pub open spec fn spec_sat_add(a: int, b: int) -> i64 {
    if a + b > i64::MAX {
        i64::MAX
    } else if a + b < i64::MIN {
        i64::MIN
    } else {
        (a + b) as i64
    }
}

/// Saturating signed addition.
pub fn sat_add(a: i64, b: i64) -> (r: i64)
    ensures
        r == spec_sat_add(a as int, b as int),
{
    if b >= 0 {
        if a > i64::MAX - b {
            i64::MAX
        } else {
            a + b
        }
    } else {
        if a < i64::MIN - b {
            i64::MIN
        } else {
            a + b
        }
    }
}

/// Component-wise saturating vector addition.
pub open spec fn spec_vadd_sat(a: Vec3Fx, b: Vec3Fx) -> Vec3Fx {
    Vec3Fx {
        x: spec_sat_add(a.x as int, b.x as int),
        y: spec_sat_add(a.y as int, b.y as int),
        z: spec_sat_add(a.z as int, b.z as int),
    }
}

/// Component-wise saturating vector addition.
pub fn vadd_sat(a: Vec3Fx, b: Vec3Fx) -> (r: Vec3Fx)
    ensures
        r == spec_vadd_sat(a, b),
{
    Vec3Fx { x: sat_add(a.x, b.x), y: sat_add(a.y, b.y), z: sat_add(a.z, b.z) }
}

/// The integer square root: the largest `r` with `r * r <= n`.
pub open spec fn spec_isqrt(n: nat) -> nat
    decreases n,
{
    if n == 0 {
        0
    } else {
        let p = spec_isqrt((n - 1) as nat);
        if (p + 1) * (p + 1) <= n {
            (p + 1) as nat
        } else {
            p
        }
    }
}

/// `spec_isqrt` is the integer square root.
pub proof fn lemma_isqrt_bounds(n: nat)
    ensures
        spec_isqrt(n) * spec_isqrt(n) <= n,
        n < (spec_isqrt(n) + 1) * (spec_isqrt(n) + 1),
    decreases n,
{
    if n == 0 {
        assert(spec_isqrt(0nat) == 0);
        assert((spec_isqrt(n) + 1) * (spec_isqrt(n) + 1) == 1) by (nonlinear_arith)
            requires
                spec_isqrt(n) == 0,
        ;
    } else {
        lemma_isqrt_bounds((n - 1) as nat);
        let p = spec_isqrt((n - 1) as nat);
        assert(p * p <= n - 1);
        assert(n - 1 < (p + 1) * (p + 1));
        if (p + 1) * (p + 1) <= n {
            assert(spec_isqrt(n) == p + 1);
            assert(n == (p + 1) * (p + 1));
            assert((p + 1) * (p + 1) < (p + 2) * (p + 2)) by (nonlinear_arith);
            assert(n < ((p + 1) + 1) * ((p + 1) + 1));
        } else {
            assert(spec_isqrt(n) == p);
            assert(p * p <= n);
            assert(n < (p + 1) * (p + 1));
        }
    }
}

/// The integer square root of a positive number is positive.
pub proof fn lemma_isqrt_pos(n: nat)
    requires
        n >= 1,
    ensures
        spec_isqrt(n) >= 1,
{
    lemma_isqrt_bounds(n);
    if spec_isqrt(n) == 0 {
        assert(n < (spec_isqrt(n) + 1) * (spec_isqrt(n) + 1));
        assert((spec_isqrt(n) + 1) * (spec_isqrt(n) + 1) == 1) by (nonlinear_arith)
            requires
                spec_isqrt(n) == 0,
        ;
    }
}

/// Any `r` within the square-root bounds is `spec_isqrt`.
pub proof fn lemma_isqrt_unique(n: nat, r: nat)
    requires
        r * r <= n,
        n < (r + 1) * (r + 1),
    ensures
        r == spec_isqrt(n),
{
    lemma_isqrt_bounds(n);
    let s = spec_isqrt(n);
    if r < s {
        assert((r + 1) * (r + 1) <= s * s) by (nonlinear_arith)
            requires
                r + 1 <= s,
        ;
        assert(false);
    }
    if s < r {
        assert((s + 1) * (s + 1) <= r * r) by (nonlinear_arith)
            requires
                s + 1 <= r,
        ;
        assert(false);
    }
}

/// Integer square root by bisection.
pub fn isqrt64(n: u64) -> (r: u64)
    ensures
        r as nat == spec_isqrt(n as nat),
{
    let mut lo: u64 = 0;
    let mut hi: u64 = 0xFFFF_FFFF;
    assert((n as int) < ((hi as int) + 1) * ((hi as int) + 1)) by (nonlinear_arith)
        requires
            n <= u64::MAX && hi == 0xFFFF_FFFFu64,
    ;
    while lo < hi
        invariant
            lo <= hi <= 0xFFFF_FFFF,
            (lo as int) * (lo as int) <= n as int,
            (n as int) < ((hi as int) + 1) * ((hi as int) + 1),
        decreases hi - lo,
    {
        let mid: u64 = lo + (hi - lo + 1) / 2;
        assert((mid as int) * (mid as int) <= 0xFFFF_FFFFi64 * 0xFFFF_FFFFi64) by (nonlinear_arith)
            requires
                mid <= 0xFFFF_FFFFu64,
        ;
        let sq: u128 = (mid as u128) * (mid as u128);
        if sq <= (n as u128) {
            lo = mid;
        } else {
            hi = mid - 1;
        }
    }
    proof {
        lemma_isqrt_unique(n as nat, lo as nat);
    }
    lo
}

/// Scale a component by `FX_ONE / len`, rounding the magnitude down.
pub open spec fn spec_scale_div(c: int, len: int) -> int {
    if c >= 0 {
        c * FX_ONE / len
    } else {
        -((-c) * FX_ONE / len)
    }
}

/// Clamp the length of a horizontal vector to at most one world unit,
/// preserving its direction up to fixed-point rounding.
pub open spec fn spec_clamp_xz(x: int, z: int) -> (int, int) {
    let l2 = x * x + z * z;
    if l2 <= FX_ONE * FX_ONE {
        (x, z)
    } else {
        let len = spec_isqrt(l2 as nat) as int;
        (spec_scale_div(x, len), spec_scale_div(z, len))
    }
}

/// The clamped components stay within `DIR_BOUND * FX_ONE` in magnitude.
pub proof fn lemma_clamp_bounds(x: int, z: int)
    requires
        -DIR_BOUND <= x <= DIR_BOUND,
        -DIR_BOUND <= z <= DIR_BOUND,
    ensures
        -(DIR_BOUND * FX_ONE) <= spec_clamp_xz(x, z).0 <= DIR_BOUND * FX_ONE,
        -(DIR_BOUND * FX_ONE) <= spec_clamp_xz(x, z).1 <= DIR_BOUND * FX_ONE,
{
    let l2 = x * x + z * z;
    if l2 <= FX_ONE * FX_ONE {
    } else {
        assert(l2 >= 1) by (nonlinear_arith)
            requires
                l2 > FX_ONE * FX_ONE && FX_ONE == 1000i64,
        ;
        lemma_isqrt_pos(l2 as nat);
        let len = spec_isqrt(l2 as nat) as int;
        lemma_scale_div_bound(x, len);
        lemma_scale_div_bound(z, len);
    }
}

/// Dividing a scaled component by a positive length cannot grow its magnitude
/// beyond the scaled input bound.
proof fn lemma_scale_div_bound(c: int, len: int)
    requires
        -DIR_BOUND <= c <= DIR_BOUND,
        len >= 1,
    ensures
        -(DIR_BOUND * FX_ONE) <= spec_scale_div(c, len) <= DIR_BOUND * FX_ONE,
{
    if c >= 0 {
        assert(0 <= c * FX_ONE / len <= c * FX_ONE) by (nonlinear_arith)
            requires
                c >= 0 && len >= 1 && FX_ONE == 1000i64,
        ;
        assert(c * FX_ONE <= DIR_BOUND * FX_ONE) by (nonlinear_arith)
            requires
                c <= DIR_BOUND && FX_ONE == 1000i64 && DIR_BOUND == 2000i64,
        ;
    } else {
        assert(0 <= (-c) * FX_ONE / len <= (-c) * FX_ONE) by (nonlinear_arith)
            requires
                c < 0 && len >= 1 && FX_ONE == 1000i64,
        ;
        assert((-c) * FX_ONE <= DIR_BOUND * FX_ONE) by (nonlinear_arith)
            requires
                -c <= DIR_BOUND && FX_ONE == 1000i64 && DIR_BOUND == 2000i64,
        ;
    }
}

/// Clamp the length of a horizontal vector to at most one world unit.
pub fn clamp_len_xz(x: i64, z: i64) -> (r: (i64, i64))
    requires
        -DIR_BOUND <= x <= DIR_BOUND,
        -DIR_BOUND <= z <= DIR_BOUND,
    ensures
        r.0 as int == spec_clamp_xz(x as int, z as int).0,
        r.1 as int == spec_clamp_xz(x as int, z as int).1,
{
    let ax: u64 = if x >= 0 {
        x as u64
    } else {
        (-x) as u64
    };
    let az: u64 = if z >= 0 {
        z as u64
    } else {
        (-z) as u64
    };
    proof {
        assert((ax as int) * (ax as int) == (x as int) * (x as int) && (az as int) * (az as int) == (
        z as int) * (z as int) && (ax as int) * (ax as int) + (az as int) * (az as int) <= 2
            * (2000i64 * 2000i64)) by (nonlinear_arith)
            requires
                0 <= ax <= 2000u64 && 0 <= az <= 2000u64 && (ax == x || ax as int == -(x as int))
                    && (az == z || az as int == -(z as int)),
        ;
    }
    let l2: u64 = ax * ax + az * az;
    if l2 <= (FX_ONE * FX_ONE) as u64 {
        (x, z)
    } else {
        let len: u64 = isqrt64(l2);
        proof {
            lemma_isqrt_pos(l2 as nat);
        }
        let sx: u64 = ax * (FX_ONE as u64) / len;
        let sz: u64 = az * (FX_ONE as u64) / len;
        proof {
            assert(ax * (FX_ONE as u64) <= 2_000_000 && az * (FX_ONE as u64) <= 2_000_000)
                by (nonlinear_arith)
                requires
                    ax <= 2000u64 && az <= 2000u64 && FX_ONE == 1000i64,
            ;
            assert(sx <= 2_000_000 && sz <= 2_000_000) by (nonlinear_arith)
                requires
                    len >= 1u64 && sx as int == (ax as int) * 1000 / (len as int) && sz as int == (
                    az as int) * 1000 / (len as int) && (ax as int) * 1000 <= 2_000_000 && (
                    az as int) * 1000 <= 2_000_000,
            ;
        }
        let cx: i64 = if x >= 0 {
            sx as i64
        } else {
            -(sx as i64)
        };
        let cz: i64 = if z >= 0 {
            sz as i64
        } else {
            -(sz as i64)
        };
        (cx, cz)
    }
}

} // verus!
