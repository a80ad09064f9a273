//! Fixed-point coordinates on the complex plane.
//!
//! A coordinate is an `i64` counting millionths, so the value `1.25` is held
//! as `1_250_000`.  The orbit step `z * z + c` and the squared magnitude are
//! computed exactly in 128-bit intermediates; the spec functions below state
//! the same arithmetic over unbounded integers.

use vstd::prelude::*;

verus! {

/// How many fixed-point units make one plane unit.
pub const SCALE: i64 = 1_000_000;

/// `4 * SCALE * SCALE`: the squared magnitude, in squared fixed-point units,
/// beyond which an orbit is proven to diverge (|z| > 2).
pub const ESCAPE_THRESHOLD: i64 = 4_000_000_000_000;

/// Largest coordinate magnitude the library accepts: `i64::MAX - 4 * SCALE`.
/// One orbit step moves a bounded point by at most `4 * SCALE` before adding
/// `c`, so coordinates up to this bound can never overflow an `i64`.
pub const COORD_LIMIT: i64 = 9_223_372_036_850_775_807;

/// A point of the complex plane in fixed point: each field counts millionths.
#[derive(Clone, Copy, PartialEq, Eq, Structural, Debug)]
pub struct ComplexPoint {
    pub real: i64,
    pub imag: i64,
}

impl ComplexPoint {
    /// Both coordinates lie within the magnitude the library accepts.
    pub open spec fn in_range(self) -> bool {
        -COORD_LIMIT <= self.real <= COORD_LIMIT && -COORD_LIMIT <= self.imag
            <= COORD_LIMIT
    }
}

/// Division by `SCALE` rounded toward zero, as the executable code computes it.
pub open spec fn div_by_scale(p: int) -> int {
    if p >= 0 {
        p / (SCALE as int)
    } else {
        -((-p) / (SCALE as int))
    }
}

/// Squared magnitude of the point `(re, im)`, in squared fixed-point units.
pub open spec fn norm_sqr(re: int, im: int) -> int {
    re * re + im * im
}

/// Real part of `z * z + c` in fixed point.
pub open spec fn step_re(zr: int, zi: int, cr: int) -> int {
    div_by_scale(zr * zr - zi * zi) + cr
}

/// Imaginary part of `z * z + c` in fixed point.
pub open spec fn step_im(zr: int, zi: int, ci: int) -> int {
    div_by_scale(2 * zr * zi) + ci
}

/// Squared magnitude, computed exactly in 128 bits.
pub fn norm_sqr_exec(re: i64, im: i64) -> (r: i128)
    requires
        i64::MIN < re,
        i64::MIN < im,
    ensures
        r == norm_sqr(re as int, im as int),
{
    let rw: i128 = re as i128;
    let iw: i128 = im as i128;
    proof {
        assert(0 <= rw * rw && 0 <= iw * iw && rw * rw + iw * iw <= i128::MAX)
            by (nonlinear_arith)
            requires
                -0x7fff_ffff_ffff_ffff <= rw <= 0x7fff_ffff_ffff_ffff,
                -0x7fff_ffff_ffff_ffff <= iw <= 0x7fff_ffff_ffff_ffff,
        ;
    }
    rw * rw + iw * iw
}

/// Quotient by `SCALE`, rounded toward zero.
fn div_trunc_scale(p: i128) -> (q: i128)
    requires
        i128::MIN < p,
    ensures
        q == div_by_scale(p as int),
{
    if p >= 0 {
        let m: u128 = p as u128;
        let q: u128 = m / (SCALE as u128);
        proof {
            vstd::arithmetic::div_mod::lemma_div_nonincreasing(m as int, SCALE as int);
            vstd::arithmetic::div_mod::lemma_div_pos_is_pos(m as int, SCALE as int);
        }
        q as i128
    } else {
        let m: u128 = (-p) as u128;
        let q: u128 = m / (SCALE as u128);
        proof {
            vstd::arithmetic::div_mod::lemma_div_nonincreasing(m as int, SCALE as int);
            vstd::arithmetic::div_mod::lemma_div_pos_is_pos(m as int, SCALE as int);
        }
        -(q as i128)
    }
}

/// The magnitude of a truncated quotient by `SCALE` is bounded by the
/// magnitude bound of the dividend, divided by `SCALE`.
proof fn lemma_div_by_scale_mag(p: int, b: int)
    requires
        0 <= b,
        -b <= p <= b,
    ensures
        -(b / (SCALE as int)) <= div_by_scale(p) <= b / (SCALE as int),
{
    if p >= 0 {
        vstd::arithmetic::div_mod::lemma_div_is_ordered(p, b, SCALE as int);
        vstd::arithmetic::div_mod::lemma_div_pos_is_pos(p, SCALE as int);
        vstd::arithmetic::div_mod::lemma_div_pos_is_pos(b, SCALE as int);
    } else {
        vstd::arithmetic::div_mod::lemma_div_is_ordered(-p, b, SCALE as int);
        vstd::arithmetic::div_mod::lemma_div_pos_is_pos(-p, SCALE as int);
        vstd::arithmetic::div_mod::lemma_div_pos_is_pos(b, SCALE as int);
    }
}

/// One orbit step: `z * z + c` in fixed point.  The step is only taken on a
/// `z` that has not escaped yet, which bounds its coordinates by `2 * SCALE`.
pub fn escape_step(z: ComplexPoint, c: ComplexPoint) -> (r: ComplexPoint)
    requires
        norm_sqr(z.real as int, z.imag as int) <= ESCAPE_THRESHOLD,
        c.in_range(),
    ensures
        r.real == step_re(z.real as int, z.imag as int, c.real as int),
        r.imag == step_im(z.real as int, z.imag as int, c.imag as int),
        i64::MIN < r.real,
        i64::MIN < r.imag,
{
    let zr: i128 = z.real as i128;
    let zi: i128 = z.imag as i128;
    proof {
        assert(-2_000_000 <= zr <= 2_000_000 && -2_000_000 <= zi <= 2_000_000)
            by (nonlinear_arith)
            requires
                zr * zr + zi * zi <= 4_000_000_000_000,
        ;
        assert(0 <= zr * zr && 0 <= zi * zi && zr * zr <= 4_000_000_000_000
            && zi * zi <= 4_000_000_000_000) by (nonlinear_arith)
            requires
                zr * zr + zi * zi <= 4_000_000_000_000,
        ;
        assert(-4_000_000_000_000 <= 2 * zr * zi <= 4_000_000_000_000)
            by (nonlinear_arith)
            requires
                zr * zr + zi * zi <= 4_000_000_000_000,
        ;
    }
    let d: i128 = zr * zr - zi * zi;
    let p: i128 = 2 * zr * zi;
    proof {
        lemma_div_by_scale_mag(d as int, 4_000_000_000_000);
        lemma_div_by_scale_mag(p as int, 4_000_000_000_000);
    }
    let dq: i128 = div_trunc_scale(d);
    let pq: i128 = div_trunc_scale(p);
    let rr: i128 = dq + c.real as i128;
    let ri: i128 = pq + c.imag as i128;
    ComplexPoint { real: rr as i64, imag: ri as i64 }
}

} // verus!
