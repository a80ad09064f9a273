//! The escape-time test.
//!
//! Starting from `z = 0`, the orbit `z -> z * z + c` is followed for at most
//! `limit` steps.  Before each step the current `z` is tested: once its
//! squared magnitude exceeds the escape threshold (|z| > 2), the point is
//! proven outside the Mandelbrot set and the step index is returned.  If the
//! budget runs out first, the point is taken to be a member.

use vstd::prelude::*;

use crate::plane::{
    escape_step, norm_sqr, norm_sqr_exec, step_im, step_re, ComplexPoint,
    ESCAPE_THRESHOLD,
};

verus! {

/// Result of the escape search that starts at orbit position `(zr, zi)` with
/// step index `i`: the first index in `[i, limit)` whose orbit value has
/// squared magnitude above the threshold, or `None` if there is none before
/// the budget runs out.
pub open spec fn escape_from(
    zr: int,
    zi: int,
    cr: int,
    ci: int,
    i: int,
    limit: int,
) -> Option<int>
    decreases limit - i,
{
    if i >= limit {
        None
    } else if norm_sqr(zr, zi) > ESCAPE_THRESHOLD {
        Some(i)
    } else {
        escape_from(step_re(zr, zi, cr), step_im(zr, zi, ci), cr, ci, i + 1, limit)
    }
}

/// The escape count of the point `(cr, ci)` under at most `limit` steps.
pub open spec fn escape_ints(cr: int, ci: int, limit: int) -> Option<int> {
    escape_from(0, 0, cr, ci, 0, limit)
}

/// The escape count of the point `c` under at most `limit` steps.
pub open spec fn escape_spec(c: ComplexPoint, limit: int) -> Option<int> {
    escape_ints(c.real as int, c.imag as int, limit)
}

/// Test whether `c` is outside the Mandelbrot set, using at most `limit`
/// orbit steps.  `Some(i)` means the orbit left the circle of radius 2 at
/// step index `i`; `None` means the budget ran out without proof, so `c` is
/// taken to be a member.
pub fn escape_iterations(c: ComplexPoint, limit: usize) -> (r: Option<usize>)
    requires
        c.in_range(),
    ensures
        r is Some <==> escape_spec(c, limit as int) is Some,
        r matches Some(i) ==> escape_spec(c, limit as int) == Some(i as int) && i
            < limit,
{
    let mut z = ComplexPoint { real: 0, imag: 0 };
    let mut i: usize = 0;
    while i < limit
        invariant
            i <= limit,
            c.in_range(),
            i64::MIN < z.real,
            i64::MIN < z.imag,
            escape_from(
                z.real as int,
                z.imag as int,
                c.real as int,
                c.imag as int,
                i as int,
                limit as int,
            ) == escape_spec(c, limit as int),
        decreases limit - i,
    {
        let n = norm_sqr_exec(z.real, z.imag);
        if n > ESCAPE_THRESHOLD as i128 {
            proof {
                assert(escape_from(
                    z.real as int,
                    z.imag as int,
                    c.real as int,
                    c.imag as int,
                    i as int,
                    limit as int,
                ) == Some(i as int));
            }
            return Some(i);
        }
        z = escape_step(z, c);
        i = i + 1;
    }
    None
}

/// The orbit of `c`: position 0 is the origin, and each later position is
/// `z * z + c` of the one before.
pub open spec fn orbit(cr: int, ci: int, n: nat) -> (int, int)
    decreases n,
{
    if n == 0 {
        (0, 0)
    } else {
        let z = orbit(cr, ci, (n - 1) as nat);
        (step_re(z.0, z.1, cr), step_im(z.0, z.1, ci))
    }
}

/// The orbit of `c` has left the circle of radius 2 by position `n`.
pub open spec fn orbit_escaped(cr: int, ci: int, n: nat) -> bool {
    norm_sqr(orbit(cr, ci, n).0, orbit(cr, ci, n).1) > ESCAPE_THRESHOLD
}

/// The escape count is exactly the least orbit position outside the circle
/// of radius 2: `None` when no position below `limit` is outside it, and
/// `Some(e)` when position `e` is the first one outside it.
pub proof fn lemma_escape_spec_characterised(c: ComplexPoint, limit: int)
    requires
        0 <= limit,
    ensures
        escape_spec(c, limit) is None <==> (forall|j: nat|
            j < limit ==> !#[trigger] orbit_escaped(c.real as int, c.imag as int, j)),
        escape_spec(c, limit) matches Some(e) ==> 0 <= e < limit && orbit_escaped(
            c.real as int,
            c.imag as int,
            e as nat,
        ) && (forall|j: nat|
            j < e ==> !#[trigger] orbit_escaped(c.real as int, c.imag as int, j)),
{
    let cr = c.real as int;
    let ci = c.imag as int;
    assert(orbit(cr, ci, 0) == (0int, 0int));
    lemma_escape_from_orbit(cr, ci, 0, limit);
}

/// The escape search started at orbit position `i` answers for the orbit
/// positions from `i` up to the budget.
proof fn lemma_escape_from_orbit(cr: int, ci: int, i: nat, limit: int)
    requires
        i <= limit,
    ensures
        escape_from(orbit(cr, ci, i).0, orbit(cr, ci, i).1, cr, ci, i as int, limit)
            is None <==> (forall|j: nat|
            i <= j < limit ==> !#[trigger] orbit_escaped(cr, ci, j)),
        escape_from(orbit(cr, ci, i).0, orbit(cr, ci, i).1, cr, ci, i as int, limit)
            matches Some(e) ==> i <= e < limit && orbit_escaped(cr, ci, e as nat)
            && (forall|j: nat| i <= j < e ==> !#[trigger] orbit_escaped(cr, ci, j)),
    decreases limit - i,
{
    let z = orbit(cr, ci, i);
    if (i as int) < limit {
        if norm_sqr(z.0, z.1) > ESCAPE_THRESHOLD {
            assert(orbit_escaped(cr, ci, i));
        } else {
            assert(orbit(cr, ci, i + 1) == (step_re(z.0, z.1, cr), step_im(z.0, z.1, ci)));
            lemma_escape_from_orbit(cr, ci, i + 1, limit);
            assert(!orbit_escaped(cr, ci, i));
        }
    }
}

/// With an iteration budget of zero, no point is reported outside the set.
pub proof fn lemma_zero_limit_never_escapes(c: ComplexPoint)
    ensures
        escape_spec(c, 0) is None,
{
}

/// The origin never escapes, whatever the budget: its orbit stays at zero.
pub proof fn lemma_origin_never_escapes(c: ComplexPoint, limit: int)
    requires
        c.real == 0,
        c.imag == 0,
        0 <= limit,
    ensures
        escape_spec(c, limit) is None,
{
    lemma_zero_orbit_stays(0, limit);
}

/// The escape search from orbit position zero of the point zero finds
/// nothing: the orbit step keeps the value at zero.
proof fn lemma_zero_orbit_stays(i: int, limit: int)
    requires
        0 <= i <= limit,
    ensures
        escape_from(0, 0, 0, 0, i, limit) is None,
    decreases limit - i,
{
    if i < limit {
        assert(step_re(0, 0, 0) == 0);
        assert(step_im(0, 0, 0) == 0);
        lemma_zero_orbit_stays(i + 1, limit);
    }
}

/// A point already outside the circle of radius 2 escapes at step index 1,
/// the first index at which the orbit value is the point itself.
pub proof fn lemma_far_point_escapes_at_one(c: ComplexPoint, limit: int)
    requires
        norm_sqr(c.real as int, c.imag as int) > ESCAPE_THRESHOLD,
        2 <= limit,
    ensures
        escape_spec(c, limit) == Some(1int),
{
    let cr = c.real as int;
    let ci = c.imag as int;
    assert(norm_sqr(0, 0) == 0);
    assert(step_re(0, 0, cr) == cr);
    assert(step_im(0, 0, ci) == ci);
    assert(escape_from(cr, ci, cr, ci, 1, limit) == Some(1int));
}

} // verus!
