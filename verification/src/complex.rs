//! Fixed-point complex arithmetic and the escape-time evaluator.
//!
//! A plane coordinate `v` is stored as the integer `v * SCALE`.  Starting
//! from zero, the evaluator repeatedly applies `z <- z^2 + c` and reports the
//! 1-based step at which `|z|^2` first reaches 4.0 (that is, `4 * SCALE^2` in
//! squared fixed-point units), or the sentinel 0 if the iteration bound is
//! exhausted without escaping.  The squaring uses the algebraic identity
//! `(a + b*i)^2 = ((a+b)*(a-b), 2*a*b)`, saving one multiplication.

use vstd::prelude::*;
use vstd::arithmetic::div_mod::{
    lemma_div_is_ordered, lemma_div_pos_is_pos, lemma_div_by_multiple,
};
use crate::SCALE;

verus! {

/// Magnitude bound on the components of a point handed to the evaluator:
/// 4.0 in fixed-point units.  Any point at or beyond 2.0 on either axis
/// escapes at the first step, so clamping the plane transform to this range
/// never changes an escape count.
pub const COORD_LIMIT: i64 = 4 * SCALE;

/// A point of the fractal plane in fixed-point representation.
#[derive(Debug, Clone, Copy, PartialEq, Eq, Structural)]
pub struct Complex {
    pub re: i64,
    pub im: i64,
}

/// Truncating division (rounding toward zero), the semantics of Rust's `/`
/// on signed integers; Verus's spec `/` is Euclidean, hence this wrapper.
pub open spec fn tdiv(x: int, d: int) -> int {
    if x >= 0 {
        x / d
    } else {
        -((-x) / d)
    }
}

/// The real part of `z^2 + c` in fixed-point units.
pub open spec fn step_re(zr: int, zi: int, cre: int) -> int {
    tdiv((zr + zi) * (zr - zi), SCALE as int) + cre
}

/// The imaginary part of `z^2 + c` in fixed-point units.
pub open spec fn step_im(zr: int, zi: int, cim: int) -> int {
    tdiv(2 * zr * zi, SCALE as int) + cim
}

/// The orbit of `c` under `z <- z^2 + c`: the value of `z` after `n` steps,
/// starting from zero.
pub open spec fn orbit(cre: int, cim: int, n: nat) -> (int, int)
    decreases n,
{
    if n == 0 {
        (0, 0)
    } else {
        let z = orbit(cre, cim, (n - 1) as nat);
        (step_re(z.0, z.1, cre), step_im(z.0, z.1, cim))
    }
}

/// The squared magnitude of the orbit after `n` steps.
pub open spec fn orbit_norm(cre: int, cim: int, n: nat) -> int {
    let z = orbit(cre, cim, n);
    z.0 * z.0 + z.1 * z.1
}

/// The escape threshold `4.0` in squared fixed-point units.
pub open spec fn escape_threshold() -> int {
    4 * (SCALE as int) * (SCALE as int)
}

/// The escape count of `c` under the bound `max_iter`: the smallest step
/// index `n` in `1..=max_iter` whose orbit norm reaches the threshold, or 0
/// if no such step exists.
pub open spec fn escape_count(cre: int, cim: int, max_iter: nat) -> nat
    decreases max_iter,
{
    if max_iter == 0 {
        0
    } else {
        let prior = escape_count(cre, cim, (max_iter - 1) as nat);
        if prior != 0 {
            prior
        } else if orbit_norm(cre, cim, max_iter) >= escape_threshold() {
            max_iter
        } else {
            0
        }
    }
}

/// A nonzero escape count is stable: raising the iteration bound further
/// does not change it.
pub proof fn lemma_escape_stable(cre: int, cim: int, m1: nat, m2: nat)
    requires
        m1 <= m2,
        escape_count(cre, cim, m1) != 0,
    ensures
        escape_count(cre, cim, m2) == escape_count(cre, cim, m1),
    decreases m2,
{
    if m1 < m2 {
        lemma_escape_stable(cre, cim, m1, (m2 - 1) as nat);
    }
}

/// The magnitude of a truncating quotient is bounded by the quotient of the
/// magnitude bound.
pub proof fn lemma_tdiv_bound(x: int, d: int, m: int)
    requires
        1 <= d,
        0 <= m,
        -m <= x <= m,
    ensures
        -(m / d) <= tdiv(x, d) <= m / d,
        -m <= tdiv(x, d) <= m,
{
    if x >= 0 {
        lemma_div_pos_is_pos(x, d);
        lemma_div_is_ordered(x, m, d);
        lemma_div_pos_is_pos(m, d);
    } else {
        lemma_div_pos_is_pos(-x, d);
        lemma_div_is_ordered(-x, m, d);
        lemma_div_pos_is_pos(m, d);
    }
    vstd::arithmetic::div_mod::lemma_div_nonincreasing(m, d);
}

/// A product of bounded factors is bounded by the product of the bounds.
pub proof fn lemma_mul_bound(a: int, b: int, ma: int, mb: int)
    requires
        0 <= ma,
        0 <= mb,
        -ma <= a <= ma,
        -mb <= b <= mb,
    ensures
        -(ma * mb) <= a * b <= ma * mb,
{
    assert(-(ma * mb) <= a * b <= ma * mb) by (nonlinear_arith)
        requires
            0 <= ma,
            0 <= mb,
            -ma <= a <= ma,
            -mb <= b <= mb;
}

/// A value clamped to the evaluator's component range.
pub open spec fn clamp_plane(v: int) -> int {
    if v < -(COORD_LIMIT as int) {
        -(COORD_LIMIT as int)
    } else if v > COORD_LIMIT as int {
        COORD_LIMIT as int
    } else {
        v
    }
}

/// The fixed-point plane coordinate of the integer grid coordinate `g` at
/// scale `zoom`: the plane value `g / zoom`, truncated to fixed point and
/// clamped to the evaluator's range.  The clamp never moves a point across
/// the escape threshold, since both sides of the clamp are at or beyond 4.0.
pub open spec fn plane_of(g: int, zoom: int) -> int {
    clamp_plane(tdiv(g * (SCALE as int), zoom))
}

/// The orbit of the origin stays at the origin.
pub proof fn lemma_orbit_origin(n: nat)
    ensures
        orbit(0, 0, n) == (0int, 0int),
    decreases n,
{
    if n > 0 {
        lemma_orbit_origin((n - 1) as nat);
        vstd::arithmetic::div_mod::lemma_div_of0(SCALE as int);
    }
}

/// The center of the main cardioid (the origin) never escapes, whatever the
/// iteration bound.
pub proof fn lemma_origin_never_escapes(max_iter: nat)
    ensures
        escape_count(0, 0, max_iter) == 0,
    decreases max_iter,
{
    if max_iter > 0 {
        lemma_origin_never_escapes((max_iter - 1) as nat);
        lemma_orbit_origin(max_iter);
        assert(escape_threshold() > 0) by (nonlinear_arith)
            requires
                SCALE as int >= 1;
    }
}

/// The orbit of the period-2 bulb's center `-1.0` alternates between `-1.0`
/// and the origin.
pub proof fn lemma_bulb_center_orbit(n: nat)
    ensures
        orbit(-(SCALE as int), 0, n) == if n % 2 == 0 {
            (0int, 0int)
        } else {
            (-(SCALE as int), 0int)
        },
    decreases n,
{
    if n > 0 {
        lemma_bulb_center_orbit((n - 1) as nat);
        vstd::arithmetic::div_mod::lemma_div_of0(SCALE as int);
        lemma_div_by_multiple(SCALE as int, SCALE as int);
        assert((-(SCALE as int) + 0) * (-(SCALE as int) - 0)
            == (SCALE as int) * (SCALE as int)) by (nonlinear_arith);
        assert((n - 1) % 2 == if n % 2 == 0 { 1int } else { 0int });
    }
}

/// The center of the period-2 bulb, `-1.0 + 0i`, never escapes, whatever the
/// iteration bound.
pub proof fn lemma_bulb_center_never_escapes(max_iter: nat)
    ensures
        escape_count(-(SCALE as int), 0, max_iter) == 0,
    decreases max_iter,
{
    if max_iter > 0 {
        lemma_bulb_center_never_escapes((max_iter - 1) as nat);
        lemma_bulb_center_orbit(max_iter);
        assert(0 * 0 + 0 * 0 < escape_threshold()
            && (-(SCALE as int)) * (-(SCALE as int)) + 0 * 0 < escape_threshold())
            by (nonlinear_arith)
            requires
                SCALE as int >= 1;
    }
}

/// The point `2.0 + 0i` escapes at the very first step: its escape count is
/// 1 under every positive iteration bound.
pub proof fn lemma_two_escapes_first_step(max_iter: nat)
    requires
        max_iter >= 1,
    ensures
        escape_count(2 * (SCALE as int), 0, max_iter) == 1,
{
    let s = SCALE as int;
    vstd::arithmetic::div_mod::lemma_div_of0(s);
    assert(orbit(2 * s, 0, 0) == (0int, 0int));
    assert(orbit(2 * s, 0, 1) == (step_re(0, 0, 2 * s), step_im(0, 0, 0)));
    assert(step_re(0, 0, 2 * s) == tdiv((0 + 0) * (0 - 0), s) + 2 * s);
    assert((0 + 0) * (0 - 0) == 0 && 2 * 0 * 0 == 0) by (nonlinear_arith);
    assert(orbit(2 * s, 0, 1) == (2 * s, 0int));
    assert(orbit_norm(2 * s, 0, 1) == (2 * s) * (2 * s) + 0 * 0);
    assert((2 * s) * (2 * s) + 0 * 0 >= 4 * s * s) by (nonlinear_arith);
    assert(escape_count(2 * s, 0, 0) == 0);
    assert(escape_count(2 * s, 0, 1) == 1);
    lemma_escape_stable(2 * s, 0, 1, max_iter);
}

/// Truncating division of an `i128` by a positive divisor.
pub fn tdiv128(x: i128, d: i128) -> (q: i128)
    requires
        1 <= d,
    ensures
        q == tdiv(x as int, d as int),
{
    let r = x.checked_div(d);
    proof {
        if x >= 0 {
            lemma_div_pos_is_pos(x as int, d as int);
            lemma_div_is_ordered(x as int, i128::MAX as int, d as int);
            assert(i128::MAX as int / (d as int) <= i128::MAX) by {
                vstd::arithmetic::div_mod::lemma_div_nonincreasing(i128::MAX as int, d as int);
            }
        } else {
            lemma_div_pos_is_pos(-(x as int), d as int);
            lemma_div_is_ordered(-(x as int), -(i128::MIN as int), d as int);
            assert(-(i128::MIN as int) / (d as int) <= -(i128::MIN as int)) by {
                vstd::arithmetic::div_mod::lemma_div_nonincreasing(-(i128::MIN as int), d as int);
            }
        }
        assert(r is Some);
    }
    r.unwrap()
}

/// Truncating division of an `i64` by a positive divisor.
pub fn tdiv64(x: i64, d: i64) -> (q: i64)
    requires
        1 <= d,
    ensures
        q == tdiv(x as int, d as int),
{
    let r = x.checked_div(d);
    proof {
        if x >= 0 {
            lemma_div_pos_is_pos(x as int, d as int);
            lemma_div_is_ordered(x as int, i64::MAX as int, d as int);
            assert(i64::MAX as int / (d as int) <= i64::MAX) by {
                vstd::arithmetic::div_mod::lemma_div_nonincreasing(i64::MAX as int, d as int);
            }
        } else {
            lemma_div_pos_is_pos(-(x as int), d as int);
            lemma_div_is_ordered(-(x as int), -(i64::MIN as int), d as int);
            assert(-(i64::MIN as int) / (d as int) <= -(i64::MIN as int)) by {
                vstd::arithmetic::div_mod::lemma_div_nonincreasing(-(i64::MIN as int), d as int);
            }
        }
        assert(r is Some);
    }
    r.unwrap()
}

/// Converts the integer grid coordinate `g` at scale `zoom` to a fixed-point
/// plane coordinate, clamped to the evaluator's range.
pub fn plane_coord(g: i64, zoom: u64) -> (r: i64)
    requires
        1 <= zoom,
    ensures
        r as int == plane_of(g as int, zoom as int),
        -(COORD_LIMIT as int) <= r as int <= COORD_LIMIT as int,
{
    proof {
        assert(-0x8000_0000_0000_0000_0000_0000_0000i128 <= g as int * (SCALE as int)
            <= 0x8000_0000_0000_0000_0000_0000_0000i128) by (nonlinear_arith)
            requires
                i64::MIN as int <= g as int <= i64::MAX as int;
    }
    let wide: i128 = (g as i128) * (SCALE as i128);
    let q: i128 = tdiv128(wide, zoom as i128);
    let lim: i128 = COORD_LIMIT as i128;
    if q < -lim {
        -COORD_LIMIT
    } else if q > lim {
        COORD_LIMIT
    } else {
        q as i64
    }
}

impl Complex {
    /// Both components lie within the clamp range of the plane transform.
    pub open spec fn in_range(self) -> bool {
        -(COORD_LIMIT as int) <= self.re as int <= COORD_LIMIT as int
            && -(COORD_LIMIT as int) <= self.im as int <= COORD_LIMIT as int
    }

    /// Builds the point `real + imag*i`, both components in fixed-point units.
    pub fn new(re: i64, im: i64) -> (result: Self)
        ensures
            result.re == re,
            result.im == im,
    {
        Self { re, im }
    }

    /// The escape count of this point: the 1-based step at which the orbit
    /// of `z <- z^2 + self` first reaches squared magnitude 4.0, or 0 if it
    /// stays below the threshold for all of `max_iter` steps.
    pub fn calculate_mandelbrot_iterations(&self, max_iter: u32) -> (result: u32)
        requires
            self.in_range(),
        ensures
            result == escape_count(self.re as int, self.im as int, max_iter as nat),
    {
        let cre: i128 = self.re as i128;
        let cim: i128 = self.im as i128;
        let s: i128 = SCALE as i128;
        let threshold: i128 = 4 * s * s;
        let mut zr: i128 = 0;
        let mut zi: i128 = 0;
        let mut counter: u32 = 0;
        proof {
            assert(threshold == escape_threshold());
        }
        while counter < max_iter
            invariant
                self.in_range(),
                cre == self.re as int,
                cim == self.im as int,
                s == SCALE as int,
                threshold == escape_threshold(),
                counter <= max_iter,
                (zr as int, zi as int) == orbit(cre as int, cim as int, counter as nat),
                escape_count(cre as int, cim as int, counter as nat) == 0,
                -2 * (SCALE as int) <= zr as int <= 2 * (SCALE as int),
                -2 * (SCALE as int) <= zi as int <= 2 * (SCALE as int),
            decreases max_iter - counter,
        {
            let a = zr;
            let b = zi;
            proof {
                assert((a + b) * (a - b) <= 16 * (SCALE as int) * (SCALE as int)
                    && (a + b) * (a - b) >= -16 * (SCALE as int) * (SCALE as int)) by (nonlinear_arith)
                    requires
                        -2 * (SCALE as int) <= a as int <= 2 * (SCALE as int),
                        -2 * (SCALE as int) <= b as int <= 2 * (SCALE as int);
                assert(2 * a * b <= 16 * (SCALE as int) * (SCALE as int)
                    && 2 * a * b >= -16 * (SCALE as int) * (SCALE as int)) by (nonlinear_arith)
                    requires
                        -2 * (SCALE as int) <= a as int <= 2 * (SCALE as int),
                        -2 * (SCALE as int) <= b as int <= 2 * (SCALE as int);
                lemma_tdiv_bound((a + b) as int * (a - b) as int, SCALE as int,
                    16 * (SCALE as int) * (SCALE as int));
                lemma_tdiv_bound(2 * (a as int) * (b as int), SCALE as int,
                    16 * (SCALE as int) * (SCALE as int));
                lemma_div_by_multiple(16 * (SCALE as int), SCALE as int);
            }
            let sq_re = tdiv128((a + b) * (a - b), s);
            let sq_im = tdiv128(2 * a * b, s);
            zr = sq_re + cre;
            zi = sq_im + cim;
            counter = counter + 1;
            proof {
                assert((zr as int, zi as int) == orbit(cre as int, cim as int, counter as nat));
                assert(0 <= zr as int * (zr as int) <= 400 * (SCALE as int) * (SCALE as int))
                    by (nonlinear_arith)
                    requires
                        -20 * (SCALE as int) <= zr as int <= 20 * (SCALE as int),
                        SCALE as int >= 1;
                assert(0 <= zi as int * (zi as int) <= 400 * (SCALE as int) * (SCALE as int))
                    by (nonlinear_arith)
                    requires
                        -20 * (SCALE as int) <= zi as int <= 20 * (SCALE as int),
                        SCALE as int >= 1;
            }
            if zr * zr + zi * zi >= threshold {
                proof {
                    assert(escape_count(cre as int, cim as int, counter as nat)
                        == counter as nat);
                    lemma_escape_stable(cre as int, cim as int, counter as nat,
                        max_iter as nat);
                }
                return counter;
            }
            proof {
                assert(zr as int * (zr as int) >= 0 && zi as int * (zi as int) >= 0
                    && zr as int * (zr as int) <= orbit_norm(cre as int, cim as int, counter as nat)
                    && zi as int * (zi as int) <= orbit_norm(cre as int, cim as int, counter as nat))
                    by (nonlinear_arith)
                    requires
                        orbit_norm(cre as int, cim as int, counter as nat)
                            == zr as int * (zr as int) + zi as int * (zi as int);
                assert(-2 * (SCALE as int) <= zr as int <= 2 * (SCALE as int)
                    && -2 * (SCALE as int) <= zi as int <= 2 * (SCALE as int)) by (nonlinear_arith)
                    requires
                        zr as int * (zr as int) < 4 * (SCALE as int) * (SCALE as int),
                        zi as int * (zi as int) < 4 * (SCALE as int) * (SCALE as int),
                        zr as int * (zr as int) >= 0,
                        zi as int * (zi as int) >= 0,
                        SCALE as int >= 1;
            }
        }
        0
    }
}

} // verus!
