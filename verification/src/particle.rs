//! Particles, distance constraints, and the storage that owns both and
//! advances the simulation tick by tick.

use vstd::prelude::*;

verus! {

use crate::utils::COORD_LIMIT;
use crate::utils::SPAN_LIMIT;
use crate::utils::hypot;
use crate::utils::lemma_sqrt_floor_monotone;
use crate::utils::lemma_sqrt_floor_of_square;
use crate::utils::norm;
use crate::utils::point_to_segment_distance_v;
use crate::utils::seg_dist;
use crate::utils::sq;
use crate::utils::fact;
use crate::utils::fact_spec;
use crate::utils::lemma_fact_monotone;
use vstd::pervasive::VecAdditionalExecFns;
use vstd::arithmetic::div_mod::lemma_div_denominator;
use vstd::arithmetic::div_mod::lemma_div_is_ordered;
use vstd::arithmetic::div_mod::lemma_div_multiples_vanish;
use vstd::arithmetic::div_mod::lemma_fundamental_div_mod;
use vstd::arithmetic::mul::lemma_mul_inequality;
use vstd::arithmetic::mul::lemma_mul_is_associative;
use vstd::arithmetic::mul::lemma_mul_is_commutative;

/// A 2-D integer vector.
#[derive(Clone, Copy, PartialEq, Eq, Structural, Debug)]
pub struct Vec2 {
    pub x: i64,
    pub y: i64,
}

impl Vec2 {
    /// The vector with the given components.
    pub fn new(x: i64, y: i64) -> (v: Vec2)
        ensures
            v.x == x,
            v.y == y,
    {
        Vec2 { x, y }
    }
}

/// A point mass with a position history for Verlet integration, an
/// accumulated force, a pinned flag, and a visual radius used as the
/// bounds-clamping offset.
#[derive(Clone, Copy, PartialEq, Eq, Structural, Debug)]
pub struct Particle {
    pub pos: Vec2,
    pub prev_pos: Vec2,
    pub is_pinned: bool,
    pub accl: Vec2,
    pub radius: i64,
}

/// Both coordinates of a particle lie within the span the norm helpers accept.
pub open spec fn particle_in_span(p: Particle) -> bool {
    &&& -SPAN_LIMIT <= p.pos.x <= SPAN_LIMIT
    &&& -SPAN_LIMIT <= p.pos.y <= SPAN_LIMIT
}

/// Every particle of the sequence lies within span.
pub open spec fn all_in_span(ps: Seq<Particle>) -> bool {
    forall|i: int| 0 <= i < ps.len() ==> particle_in_span(#[trigger] ps[i])
}

/// The particle after `set_position`: moved when unpinned, untouched when
/// pinned.
pub open spec fn moved_to(p: Particle, pos: Vec2) -> Particle {
    if p.is_pinned {
        p
    } else {
        Particle { pos, ..p }
    }
}

/// One coordinate after the integration step: the implicit velocity
/// `pos - prev` plus the accumulated force scaled by the squared time step.
pub open spec fn integrated_axis(pos: int, prev: int, accl: int, t: int) -> int {
    pos + (pos - prev) + accl * t * t
}

/// The integration result for an unpinned particle stays representable.
pub open spec fn update_fits(p: Particle, t: int) -> bool {
    p.is_pinned || {
        &&& i64::MIN <= integrated_axis(p.pos.x as int, p.prev_pos.x as int, p.accl.x as int, t)
            <= i64::MAX
        &&& i64::MIN <= integrated_axis(p.pos.y as int, p.prev_pos.y as int, p.accl.y as int, t)
            <= i64::MAX
    }
}

/// One coordinate after the sequential bounds clamp: first raised to `lo`,
/// then lowered to `hi`.
pub open spec fn clamped_axis(v: int, lo: int, hi: int) -> int {
    let w = if v < lo {
        lo
    } else {
        v
    };
    if w > hi {
        hi
    } else {
        w
    }
}

/// Bounds clamp: within a valid interval an outside coordinate lands exactly
/// on the nearest end, and an inside coordinate is unchanged.
pub proof fn lemma_clamp_nearest_bound(v: int, lo: int, hi: int)
    requires
        lo <= hi,
    ensures
        v < lo ==> clamped_axis(v, lo, hi) == lo,
        v > hi ==> clamped_axis(v, lo, hi) == hi,
        lo <= v <= hi ==> clamped_axis(v, lo, hi) == v,
{
}

impl Particle {
    /// A particle at rest at (x, y): its previous position coincides with its
    /// position, so its implicit velocity is zero, and no force accumulated.
    pub fn new(x: i64, y: i64, radius: i64, is_pinned: bool) -> (p: Particle)
        requires
            0 <= radius,
        ensures
            p.pos.x == x,
            p.pos.y == y,
            p.prev_pos.x == x,
            p.prev_pos.y == y,
            p.accl.x == 0,
            p.accl.y == 0,
            p.is_pinned == is_pinned,
            p.radius == radius,
    {
        Particle {
            pos: Vec2 { x, y },
            prev_pos: Vec2 { x, y },
            is_pinned,
            accl: Vec2 { x: 0, y: 0 },
            radius,
        }
    }

    /// The current position.
    pub fn get_position(&self) -> (v: Vec2)
        ensures
            v == self.pos,
    {
        self.pos
    }

    /// Move an unpinned particle to `pos`; a pinned particle stays put.
    pub fn set_position(&mut self, pos: Vec2)
        ensures
            *final(self) == moved_to(*old(self), pos),
    {
        if !self.is_pinned {
            self.pos = pos;
        }
    }

    /// Add `force` to the accumulated force of an unpinned particle; a
    /// pinned particle ignores forces entirely.
    pub fn apply_force(&mut self, force: Vec2)
        requires
            old(self).is_pinned || {
                &&& i64::MIN <= old(self).accl.x + force.x <= i64::MAX
                &&& i64::MIN <= old(self).accl.y + force.y <= i64::MAX
            },
        ensures
            old(self).is_pinned ==> *final(self) == *old(self),
            !old(self).is_pinned ==> {
                &&& final(self).accl.x == old(self).accl.x + force.x
                &&& final(self).accl.y == old(self).accl.y + force.y
                &&& final(self).pos == old(self).pos
                &&& final(self).prev_pos == old(self).prev_pos
                &&& final(self).is_pinned == old(self).is_pinned
                &&& final(self).radius == old(self).radius
            },
    {
        if !self.is_pinned {
            self.accl = Vec2 { x: self.accl.x + force.x, y: self.accl.y + force.y };
        }
    }

    /// Position (Verlet) integration: the velocity is implicit in the
    /// position history, the accumulated force is consumed and reset.
    /// A pinned particle is left untouched.
    pub fn update(&mut self, time_step: i64)
        requires
            -1_000_000 <= time_step <= 1_000_000,
            update_fits(*old(self), time_step as int),
        ensures
            old(self).is_pinned ==> *final(self) == *old(self),
            !old(self).is_pinned ==> {
                &&& final(self).pos.x == integrated_axis(
                    old(self).pos.x as int,
                    old(self).prev_pos.x as int,
                    old(self).accl.x as int,
                    time_step as int,
                )
                &&& final(self).pos.y == integrated_axis(
                    old(self).pos.y as int,
                    old(self).prev_pos.y as int,
                    old(self).accl.y as int,
                    time_step as int,
                )
                &&& final(self).prev_pos == old(self).pos
                &&& final(self).accl.x == 0
                &&& final(self).accl.y == 0
                &&& final(self).is_pinned == old(self).is_pinned
                &&& final(self).radius == old(self).radius
            },
    {
        if !self.is_pinned {
            proof {
                assert(0 <= (time_step as int) * (time_step as int) <= 1_000_000_000_000)
                    by (nonlinear_arith)
                    requires -1_000_000 <= time_step <= 1_000_000;
            }
            let tt: i128 = (time_step as i128) * (time_step as i128);
            proof {
                assert((self.accl.x as i128) * tt <= 9_300_000_000_000_000_000_000_000_000_000int
                    && (self.accl.x as i128) * tt >= -9_300_000_000_000_000_000_000_000_000_000int)
                    by (nonlinear_arith)
                    requires
                        -9_223_372_036_854_775_808i128 <= self.accl.x as i128 <= 9_223_372_036_854_775_807i128,
                        0 <= tt <= 1_000_000_000_000;
                assert((self.accl.y as i128) * tt <= 9_300_000_000_000_000_000_000_000_000_000int
                    && (self.accl.y as i128) * tt >= -9_300_000_000_000_000_000_000_000_000_000int)
                    by (nonlinear_arith)
                    requires
                        -9_223_372_036_854_775_808i128 <= self.accl.y as i128 <= 9_223_372_036_854_775_807i128,
                        0 <= tt <= 1_000_000_000_000;
                lemma_mul_is_associative(self.accl.x as int, time_step as int, time_step as int);
                lemma_mul_is_associative(self.accl.y as int, time_step as int, time_step as int);
            }
            let ax: i128 = (self.accl.x as i128) * tt;
            let ay: i128 = (self.accl.y as i128) * tt;
            let nx: i128 = self.pos.x as i128 + (self.pos.x as i128 - self.prev_pos.x as i128) + ax;
            let ny: i128 = self.pos.y as i128 + (self.pos.y as i128 - self.prev_pos.y as i128) + ay;
            self.prev_pos = self.pos;
            self.pos = Vec2 { x: nx as i64, y: ny as i64 };
            self.accl = Vec2 { x: 0, y: 0 };
        }
    }

    /// Clamp the position to the viewport: each axis is forced into
    /// [radius, dimension - radius], pinned or not.
    pub fn constraint_to_bounds(&mut self, width: i64, height: i64)
        requires
            0 <= width,
            0 <= height,
            0 <= old(self).radius,
        ensures
            final(self).pos.x == clamped_axis(
                old(self).pos.x as int,
                old(self).radius as int,
                width - old(self).radius,
            ),
            final(self).pos.y == clamped_axis(
                old(self).pos.y as int,
                old(self).radius as int,
                height - old(self).radius,
            ),
            final(self).prev_pos == old(self).prev_pos,
            final(self).accl == old(self).accl,
            final(self).is_pinned == old(self).is_pinned,
            final(self).radius == old(self).radius,
    {
        let mut px: i64 = self.pos.x;
        let mut py: i64 = self.pos.y;
        if px < self.radius {
            px = self.radius;
        }
        if px > width - self.radius {
            px = width - self.radius;
        }
        if py < self.radius {
            py = self.radius;
        }
        if py > height - self.radius {
            py = height - self.radius;
        }
        self.pos = Vec2 { x: px, y: py };
    }
}

/// A distance link between two particle slots: the indices of its endpoints,
/// the rest length frozen at construction time, and an active flag that
/// tearing clears permanently.
#[derive(Clone, Copy, PartialEq, Eq, Structural, Debug)]
pub struct Constraint {
    pub p1_index: usize,
    pub p2_index: usize,
    pub init_length: i64,
    pub is_active: bool,
}

/// The constraint with its active flag cleared and all else unchanged.
pub open spec fn deactivated(c: Constraint) -> Constraint {
    Constraint { is_active: false, ..c }
}

/// Deactivation is idempotent: deactivating an already-deactivated
/// constraint changes nothing at all.
pub proof fn lemma_deactivate_idempotent(c: Constraint)
    ensures
        deactivated(deactivated(c)) == deactivated(c),
        !c.is_active ==> deactivated(c) == c,
{
}

/// The floor distance between the positions of particles `i` and `j`.
pub open spec fn dist_between(ps: Seq<Particle>, i: int, j: int) -> int {
    norm(ps[j].pos.x - ps[i].pos.x, ps[j].pos.y - ps[i].pos.y)
}

/// The sign of an integer: -1, 0 or 1.
pub open spec fn sgn(x: int) -> int {
    if x > 0 {
        1
    } else if x < 0 {
        -1
    } else {
        0
    }
}

/// The magnitude of an integer.
pub open spec fn abs_val(x: int) -> int {
    if x < 0 {
        -x
    } else {
        x
    }
}

/// One component of the relaxation correction for a constraint whose current
/// floor length is `d` and rest length is `rest`: half of the relative
/// stretch along `delta`, rounded toward zero; zero for a degenerate
/// (zero-length) segment, where the ratio would otherwise divide by zero.
pub open spec fn correction_axis(delta: int, d: int, rest: int) -> int {
    if d <= 0 {
        0
    } else {
        sgn(delta) * sgn(d - rest) * ((abs_val(delta) * abs_val(d - rest)) / (2 * d))
    }
}

/// The x component of the correction between two endpoint positions.
pub open spec fn correction_x(p1: Vec2, p2: Vec2, rest: int) -> int {
    correction_axis(p2.x - p1.x, norm(p2.x - p1.x, p2.y - p1.y), rest)
}

/// The y component of the correction between two endpoint positions.
pub open spec fn correction_y(p1: Vec2, p2: Vec2, rest: int) -> int {
    correction_axis(p2.y - p1.y, norm(p2.x - p1.x, p2.y - p1.y), rest)
}

/// A floor length bounds the magnitude of each of its coordinate spans.
proof fn lemma_norm_dominates_axis(dx: int, dy: int)
    requires
        -2 * SPAN_LIMIT <= dx <= 2 * SPAN_LIMIT,
        -2 * SPAN_LIMIT <= dy <= 2 * SPAN_LIMIT,
    ensures
        abs_val(dx) <= norm(dx, dy),
        abs_val(dy) <= norm(dx, dy),
{
    lemma_sqrt_floor_of_square(abs_val(dx));
    lemma_sqrt_floor_of_square(abs_val(dy));
    assert(sq(abs_val(dx)) == sq(dx) && sq(abs_val(dy)) == sq(dy)) by (nonlinear_arith);
    assert(sq(dx) >= 0 && sq(dy) >= 0) by (nonlinear_arith);
    lemma_sqrt_floor_monotone(sq(abs_val(dx)), sq(dx) + sq(dy));
    lemma_sqrt_floor_monotone(sq(abs_val(dy)), sq(dx) + sq(dy));
}

/// The correction magnitude `(a * k) / (2 * d)` with `a <= d` is at most
/// `k / 2`, half the gap between the current and rest lengths.
proof fn lemma_correction_magnitude(a: int, k: int, d: int)
    requires
        0 <= a <= d,
        0 <= k,
        0 < d,
    ensures
        0 <= (a * k) / (2 * d) <= k / 2,
{
    lemma_mul_inequality(a, d, k);
    lemma_div_is_ordered(0, a * k, 2 * d);
    lemma_div_is_ordered(a * k, d * k, 2 * d);
    lemma_mul_is_commutative(d, 2);
    lemma_div_denominator(d * k, d, 2);
    lemma_div_multiples_vanish(k, d);
}

/// A product of two signs and a magnitude collapses to the magnitude, its
/// negation, or zero.
proof fn lemma_sign_product(s1: int, s2: int, m: int)
    by (nonlinear_arith)
    requires
        -1 <= s1 <= 1,
        -1 <= s2 <= 1,
    ensures
        s1 == 0 || s2 == 0 ==> s1 * s2 * m == 0,
        s1 == s2 && s1 != 0 ==> s1 * s2 * m == m,
        s1 != s2 && s1 != 0 && s2 != 0 ==> s1 * s2 * m == -m,
{
}

/// One relaxation correction component, shared by both axes: the exact
/// integer form of `delta * 0.5 * (d - rest) / d`.
fn correction_component(delta: i64, d: i64, rest: i64) -> (c: i64)
    requires
        0 < d <= 3 * SPAN_LIMIT,
        -2 * SPAN_LIMIT <= delta <= 2 * SPAN_LIMIT,
        abs_val(delta as int) <= d,
        0 <= rest,
    ensures
        c == correction_axis(delta as int, d as int, rest as int),
        -4_700_000_000_000_000_000 <= c <= 4_700_000_000_000_000_000,
{
    let ad: u128 = if delta < 0 {
        (-(delta as i128)) as u128
    } else {
        delta as u128
    };
    let diff: i64 = d - rest;
    let k: u128 = if diff < 0 {
        (-(diff as i128)) as u128
    } else {
        diff as u128
    };
    proof {
        assert(ad * k <= 170_000_000_000_000_000_000_000_000_000_000_000_000u128) by (nonlinear_arith)
            requires
                0 <= ad <= 6_000_000_000_000_000_000u128,
                0 <= k <= 10_000_000_000_000_000_000u128;
        lemma_correction_magnitude(ad as int, k as int, d as int);
    }
    let mag128: u128 = (ad * k) / (2 * (d as u128));
    proof {
        if delta == 0 || diff == 0 {
            assert(ad * k == 0) by (nonlinear_arith)
                requires ad == 0 || k == 0;
            lemma_div_multiples_vanish(0, 2 * (d as int));
            assert((2 * (d as int)) * 0 == 0);
            assert(mag128 == 0);
        }
    }
    let mag: i64 = mag128 as i64;
    proof {
        assert(ad as int == abs_val(delta as int));
        assert(k as int == abs_val(d as int - rest as int));
        assert(mag128 as int == ((ad as int) * (k as int)) / (2 * (d as int)));
        assert(mag128 as int == (abs_val(delta as int) * abs_val(d as int - rest as int)) / (
        2 * (d as int)));
        lemma_sign_product(sgn(delta as int), sgn(d as int - rest as int), mag128 as int);
    }
    if (delta < 0) == (diff < 0) {
        mag
    } else {
        -mag
    }
}

impl Constraint {
    /// A constraint between the particles at `p1_index` and `p2_index`,
    /// remembering their current distance as its rest length; active.
    pub fn new(p1_index: usize, p2_index: usize, particles: &Vec<Particle>) -> (c: Constraint)
        requires
            p1_index < particles@.len(),
            p2_index < particles@.len(),
            particle_in_span(particles@[p1_index as int]),
            particle_in_span(particles@[p2_index as int]),
        ensures
            c.p1_index == p1_index,
            c.p2_index == p2_index,
            c.init_length == dist_between(particles@, p1_index as int, p2_index as int),
            0 <= c.init_length <= 3 * SPAN_LIMIT,
            c.is_active,
    {
        let pos1 = particles[p1_index].get_position();
        let pos2 = particles[p2_index].get_position();
        let dx: i64 = pos2.x - pos1.x;
        let dy: i64 = pos2.y - pos1.y;
        Constraint { p1_index, p2_index, init_length: hypot(dx, dy), is_active: true }
    }

    /// The positional correction for the first endpoint (the second receives
    /// its negation): half the relative stretch along the delta vector, and
    /// zero for a degenerate zero-length segment.
    pub fn get_correction(&self, particles: &Vec<Particle>) -> (r: Vec2)
        requires
            self.p1_index < particles@.len(),
            self.p2_index < particles@.len(),
            particle_in_span(particles@[self.p1_index as int]),
            particle_in_span(particles@[self.p2_index as int]),
            0 <= self.init_length,
        ensures
            r.x == correction_x(
                particles@[self.p1_index as int].pos,
                particles@[self.p2_index as int].pos,
                self.init_length as int,
            ),
            r.y == correction_y(
                particles@[self.p1_index as int].pos,
                particles@[self.p2_index as int].pos,
                self.init_length as int,
            ),
            -4_700_000_000_000_000_000 <= r.x <= 4_700_000_000_000_000_000,
            -4_700_000_000_000_000_000 <= r.y <= 4_700_000_000_000_000_000,
    {
        let pos1 = particles[self.p1_index].get_position();
        let pos2 = particles[self.p2_index].get_position();
        let dx: i64 = pos2.x - pos1.x;
        let dy: i64 = pos2.y - pos1.y;
        let curr_length: i64 = hypot(dx, dy);
        if curr_length == 0 {
            Vec2 { x: 0, y: 0 }
        } else {
            proof {
                lemma_norm_dominates_axis(dx as int, dy as int);
            }
            let cx: i64 = correction_component(dx, curr_length, self.init_length);
            let cy: i64 = correction_component(dy, curr_length, self.init_length);
            Vec2 { x: cx, y: cy }
        }
    }

    /// Whether this constraint still participates in relaxation and drawing.
    pub fn get_active(&self) -> (a: bool)
        ensures
            a == self.is_active,
    {
        self.is_active
    }

    /// Permanently exclude this constraint; idempotent, touches nothing else.
    pub fn deactivate(&mut self)
        ensures
            *final(self) == deactivated(*old(self)),
    {
        self.is_active = false;
    }
}

/// Rest-length preservation: when the current distance between the two
/// endpoints equals the rest length, the correction vanishes on both axes.
pub proof fn lemma_correction_zero_at_rest(p1: Vec2, p2: Vec2, rest: int)
    requires
        norm(p2.x - p1.x, p2.y - p1.y) == rest,
    ensures
        correction_x(p1, p2, rest) == 0,
        correction_y(p1, p2, rest) == 0,
{
    let d = norm(p2.x - p1.x, p2.y - p1.y);
    if d > 0 {
        lemma_sign_product(
            sgn(p2.x - p1.x),
            sgn(d - rest),
            (abs_val(p2.x - p1.x) * abs_val(d - rest)) / (2 * d),
        );
        lemma_sign_product(
            sgn(p2.y - p1.y),
            sgn(d - rest),
            (abs_val(p2.y - p1.y) * abs_val(d - rest)) / (2 * d),
        );
    }
}

/// Relaxation convergence for a single horizontal constraint: one pass moves
/// the separation toward the rest length and never past it, strictly so
/// whenever the gap is at least two units; a gap of one unit rounds to no
/// motion.
pub proof fn lemma_relaxation_approaches_rest(p1: Vec2, p2: Vec2, rest: int)
    requires
        p1.y == p2.y,
        p1.x < p2.x,
        0 <= rest,
    ensures
        correction_y(p1, p2, rest) == 0,
        ({
            let d = p2.x - p1.x;
            let cx = correction_x(p1, p2, rest);
            let d2 = (p2.x - cx) - (p1.x + cx);
            &&& d >= rest ==> rest <= d2 <= d
            &&& d <= rest ==> d <= d2 <= rest
            &&& d - rest >= 2 ==> d2 < d
            &&& rest - d >= 2 ==> d2 > d
        }),
{
    let d0 = p2.x - p1.x;
    assert(sq(0) == 0);
    lemma_sqrt_floor_of_square(d0);
    assert(norm(d0, p2.y - p1.y) == d0);
    let k = abs_val(d0 - rest);
    assert(d0 * k >= 0) by (nonlinear_arith)
        requires d0 >= 0, k >= 0;
    lemma_mul_is_commutative(2, d0);
    lemma_div_denominator(d0 * k, d0, 2);
    lemma_div_multiples_vanish(k, d0);
    assert(abs_val(d0) * abs_val(d0 - rest) == d0 * k);
    assert((abs_val(d0) * abs_val(d0 - rest)) / (2 * d0) == k / 2);
    lemma_fundamental_div_mod(k, 2);
    lemma_sign_product(sgn(d0), sgn(d0 - rest), k / 2);
    lemma_sign_product(sgn(0), sgn(d0 - rest), (abs_val(0) * abs_val(d0 - rest)) / (2 * d0));
}

/// Relaxation convergence, stated on a whole pass: one pass over a single
/// isolated horizontal constraint with unpinned endpoints moves their
/// separation toward the rest length and never past it, strictly so whenever
/// the gap is at least two units.
pub proof fn lemma_relax_pass_single_horizontal(ps: Seq<Particle>, c: Constraint)
    requires
        c.is_active,
        (c.p1_index as int) < ps.len(),
        (c.p2_index as int) < ps.len(),
        c.p1_index != c.p2_index,
        0 <= c.init_length <= SPAN_LIMIT / 2,
        ({
            let p1 = ps[c.p1_index as int];
            let p2 = ps[c.p2_index as int];
            &&& !p1.is_pinned
            &&& !p2.is_pinned
            &&& p1.pos.y == p2.pos.y
            &&& p1.pos.x < p2.pos.x
            &&& -SPAN_LIMIT / 2 <= p1.pos.x
            &&& p2.pos.x <= SPAN_LIMIT / 2
            &&& -SPAN_LIMIT / 2 <= p1.pos.y <= SPAN_LIMIT / 2
        }),
    ensures
        ({
            let p1 = ps[c.p1_index as int];
            let p2 = ps[c.p2_index as int];
            let d = p2.pos.x - p1.pos.x;
            let rest = c.init_length as int;
            let q = relax_pass(ps, seq![c]);
            let d2 = q[c.p2_index as int].pos.x - q[c.p1_index as int].pos.x;
            &&& q.len() == ps.len()
            &&& q[c.p1_index as int].pos.y == p1.pos.y
            &&& q[c.p2_index as int].pos.y == p2.pos.y
            &&& (d >= rest ==> rest <= d2 <= d)
            &&& (d <= rest ==> d <= d2 <= rest)
            &&& (d - rest >= 2 ==> d2 < d)
            &&& (rest - d >= 2 ==> d2 > d)
        }),
{
    let i1 = c.p1_index as int;
    let i2 = c.p2_index as int;
    let p1 = ps[i1];
    let p2 = ps[i2];
    let rest = c.init_length as int;
    let d = p2.pos.x - p1.pos.x;
    lemma_relaxation_approaches_rest(p1.pos, p2.pos, rest);
    let cx = correction_x(p1.pos, p2.pos, rest);
    let cy = correction_y(p1.pos, p2.pos, rest);
    // the separation after applying the correction determines its size
    assert((p2.pos.x - cx) - (p1.pos.x + cx) == d - 2 * cx);
    assert(-SPAN_LIMIT <= p1.pos.x + cx <= SPAN_LIMIT);
    assert(-SPAN_LIMIT <= p2.pos.x - cx <= SPAN_LIMIT);
    assert(seq![c][0] == c);
    assert(seq![c].len() == 1);
    assert(relax_prefix(ps, seq![c], 0) == ps);
    assert(relax_prefix(ps, seq![c], 1) == relax_step(ps, c));
    assert(relax_pass(ps, seq![c]) == relax_step(ps, c));
    let q = relax_step(ps, c);
    assert(q[i1] == moved_to(p1, Vec2 { x: (p1.pos.x + cx) as i64, y: (p1.pos.y + cy) as i64 }));
    assert(q[i2] == moved_to(p2, Vec2 { x: (p2.pos.x - cx) as i64, y: (p2.pos.y - cy) as i64 }));
}

/// The storage owning all particles and constraints, plus the row/column
/// extents used to interpret the flat particle sequence as a row-major mesh.
pub struct ParticalStorage {
    pub capacity_row: usize,
    pub capacity_col: usize,
    pub particles: Vec<Particle>,
    pub constraints: Vec<Constraint>,
}

/// A constraint is well formed for a particle count `n`: its endpoints are
/// two distinct existing slots and its rest length is a length.
pub open spec fn constraint_wf(c: Constraint, n: int) -> bool {
    &&& (c.p1_index as int) < n
    &&& (c.p2_index as int) < n
    &&& c.p1_index != c.p2_index
    &&& 0 <= c.init_length
}

/// The particle a setup call creates: at rest at (x, y), no accumulated
/// force.
pub open spec fn rest_particle(x: i64, y: i64, radius: i64, is_pinned: bool) -> Particle {
    Particle {
        pos: Vec2 { x, y },
        prev_pos: Vec2 { x, y },
        is_pinned,
        accl: Vec2 { x: 0, y: 0 },
        radius,
    }
}

/// The per-tick arithmetic for one particle stays representable: the gravity
/// adds into the accumulated force and the integrated coordinates fit.
pub open spec fn tick_fits(p: Particle, g: int, t: int) -> bool {
    p.is_pinned || {
        &&& i64::MIN <= p.accl.y + g <= i64::MAX
        &&& i64::MIN <= integrated_axis(p.pos.x as int, p.prev_pos.x as int, p.accl.x as int, t)
            <= i64::MAX
        &&& i64::MIN <= integrated_axis(p.pos.y as int, p.prev_pos.y as int, p.accl.y + g, t)
            <= i64::MAX
    }
}

/// `post` is `pre` after one gravity application and one integration: a
/// pinned particle is untouched, an unpinned one is integrated with the
/// gravity added to its accumulated force, which is then reset.
pub open spec fn gravity_integrated(pre: Particle, post: Particle, g: int, t: int) -> bool {
    if pre.is_pinned {
        post == pre
    } else {
        &&& post.pos.x == integrated_axis(
            pre.pos.x as int,
            pre.prev_pos.x as int,
            pre.accl.x as int,
            t,
        )
        &&& post.pos.y == integrated_axis(pre.pos.y as int, pre.prev_pos.y as int, pre.accl.y + g, t)
        &&& post.prev_pos == pre.pos
        &&& post.accl.x == 0
        &&& post.accl.y == 0
        &&& post.is_pinned == pre.is_pinned
        &&& post.radius == pre.radius
    }
}

/// One relaxation step: an inactive constraint does nothing; an active one
/// adds the correction to its first endpoint and subtracts it from the
/// second, through the pinned check of `set_position`. A step whose result
/// would leave the coordinate span is skipped whole, so every coordinate
/// stays representable.
pub open spec fn relax_step(ps: Seq<Particle>, c: Constraint) -> Seq<Particle> {
    let i1 = c.p1_index as int;
    let i2 = c.p2_index as int;
    if !c.is_active || !(0 <= i1 < ps.len()) || !(0 <= i2 < ps.len()) {
        ps
    } else {
        let p1 = ps[i1];
        let p2 = ps[i2];
        let cx = correction_x(p1.pos, p2.pos, c.init_length as int);
        let cy = correction_y(p1.pos, p2.pos, c.init_length as int);
        let n1x = p1.pos.x + cx;
        let n1y = p1.pos.y + cy;
        let n2x = p2.pos.x - cx;
        let n2y = p2.pos.y - cy;
        if -SPAN_LIMIT <= n1x <= SPAN_LIMIT && -SPAN_LIMIT <= n1y <= SPAN_LIMIT && -SPAN_LIMIT
            <= n2x <= SPAN_LIMIT && -SPAN_LIMIT <= n2y <= SPAN_LIMIT {
            ps.update(i1, moved_to(p1, Vec2 { x: n1x as i64, y: n1y as i64 })).update(
                i2,
                moved_to(p2, Vec2 { x: n2x as i64, y: n2y as i64 }),
            )
        } else {
            ps
        }
    }
}

/// The first `m` relaxation steps, in constraint-storage order.
pub open spec fn relax_prefix(ps: Seq<Particle>, cs: Seq<Constraint>, m: int) -> Seq<Particle>
    decreases m,
{
    if m <= 0 {
        ps
    } else {
        relax_step(relax_prefix(ps, cs, m - 1), cs[m - 1])
    }
}

/// One full relaxation pass over all constraints, in storage order: the
/// deterministic sequential (Gauss-Seidel-style) sweep, where each step sees
/// the writes of the steps before it.
pub open spec fn relax_pass(ps: Seq<Particle>, cs: Seq<Constraint>) -> Seq<Particle> {
    relax_prefix(ps, cs, cs.len() as int)
}

/// Relaxation never changes the number of particles, touches only
/// positions, and leaves every pinned particle exactly in place.
pub proof fn lemma_relax_prefix_frame(ps: Seq<Particle>, cs: Seq<Constraint>, m: int)
    ensures
        relax_prefix(ps, cs, m).len() == ps.len(),
        forall|i: int|
            0 <= i < ps.len() ==> {
                let q = #[trigger] relax_prefix(ps, cs, m)[i];
                &&& q.prev_pos == ps[i].prev_pos
                &&& q.accl == ps[i].accl
                &&& q.is_pinned == ps[i].is_pinned
                &&& q.radius == ps[i].radius
                &&& (ps[i].is_pinned ==> q.pos == ps[i].pos)
            },
    decreases m,
{
    if m > 0 {
        lemma_relax_prefix_frame(ps, cs, m - 1);
    }
}

/// Pinned invariant for the relaxation pass: a full pass leaves every
/// pinned particle's position unchanged (force application and integration
/// state the same in their own contracts).
pub proof fn lemma_relax_pass_preserves_pinned(ps: Seq<Particle>, cs: Seq<Constraint>)
    ensures
        relax_pass(ps, cs).len() == ps.len(),
        forall|i: int|
            0 <= i < ps.len() && ps[i].is_pinned ==> (#[trigger] relax_pass(ps, cs)[i]).pos
                == ps[i].pos,
{
    lemma_relax_prefix_frame(ps, cs, cs.len() as int);
}

/// Rest-length preservation at rest: when every active constraint's
/// endpoints already stand exactly at its rest length, one relaxation pass
/// changes nothing, and hence neither does any number of repeated passes.
pub proof fn lemma_relax_pass_identity_at_rest(ps: Seq<Particle>, cs: Seq<Constraint>)
    requires
        forall|j: int|
            0 <= j < cs.len() && (#[trigger] cs[j]).is_active ==> {
                &&& (cs[j].p1_index as int) < ps.len()
                &&& (cs[j].p2_index as int) < ps.len()
                &&& dist_between(ps, cs[j].p1_index as int, cs[j].p2_index as int)
                    == cs[j].init_length
            },
    ensures
        relax_pass(ps, cs) == ps,
{
    lemma_relax_prefix_identity_at_rest(ps, cs, cs.len() as int);
}

/// Helper for the at-rest identity: induction over the pass prefix.
proof fn lemma_relax_prefix_identity_at_rest(ps: Seq<Particle>, cs: Seq<Constraint>, m: int)
    requires
        m <= cs.len(),
        forall|j: int|
            0 <= j < cs.len() && (#[trigger] cs[j]).is_active ==> {
                &&& (cs[j].p1_index as int) < ps.len()
                &&& (cs[j].p2_index as int) < ps.len()
                &&& dist_between(ps, cs[j].p1_index as int, cs[j].p2_index as int)
                    == cs[j].init_length
            },
    ensures
        relax_prefix(ps, cs, m) == ps,
    decreases m,
{
    if m > 0 {
        lemma_relax_prefix_identity_at_rest(ps, cs, m - 1);
        let c = cs[m - 1];
        let i1 = c.p1_index as int;
        let i2 = c.p2_index as int;
        if c.is_active {
            let p1 = ps[i1];
            let p2 = ps[i2];
            lemma_correction_zero_at_rest(p1.pos, p2.pos, c.init_length as int);
            if -SPAN_LIMIT <= p1.pos.x <= SPAN_LIMIT && -SPAN_LIMIT <= p1.pos.y
                <= SPAN_LIMIT && -SPAN_LIMIT <= p2.pos.x <= SPAN_LIMIT && -SPAN_LIMIT
                <= p2.pos.y <= SPAN_LIMIT {
                assert(Vec2 { x: p1.pos.x, y: p1.pos.y } == p1.pos);
                assert(Vec2 { x: p2.pos.x, y: p2.pos.y } == p2.pos);
                assert(moved_to(p1, p1.pos) == p1);
                assert(moved_to(p2, p2.pos) == p2);
                assert(relax_step(ps, c) =~= ps);
            } else {
                assert(relax_step(ps, c) == ps);
            }
        }
    }
}

impl ParticalStorage {
    /// Well-formedness: every constraint references two distinct existing
    /// particle slots and carries a non-negative rest length.
    pub open spec fn wf(self) -> bool {
        forall|j: int|
            0 <= j < self.constraints@.len() ==> constraint_wf(
                #[trigger] self.constraints@[j],
                self.particles@.len() as int,
            )
    }

    /// Empty storage for a grid of the given extents; the capacity hints are
    /// sized for the topology the extents describe.
    pub fn new(capacity_row: i32, capacity_col: i32) -> (s: ParticalStorage)
        requires
            1 <= capacity_row,
            1 <= capacity_col,
            2 <= capacity_row * capacity_col,
            capacity_row * capacity_col <= 1_000_000_000,
        ensures
            s.capacity_row == capacity_row as usize,
            s.capacity_col == capacity_col as usize,
            s.particles@.len() == 0,
            s.constraints@.len() == 0,
            s.wf(),
    {
        let particles_capacity: usize = (capacity_row * capacity_col) as usize;
        let constraints_capacity: usize = if capacity_row * capacity_col < 10 {
            proof {
                assert(fact_spec(0) == 1);
                assert(fact_spec(1) == 1);
                assert(fact_spec(2) == 2);
                assert(fact_spec(3) == 6);
                assert(fact_spec(4) == 24);
                assert(fact_spec(5) == 120);
                assert(fact_spec(6) == 720);
                assert(fact_spec(7) == 5040);
                assert(fact_spec(8) == 40320);
                assert(fact_spec(9) == 362880);
                lemma_fact_monotone(particles_capacity as int, 9);
                lemma_fact_monotone(particles_capacity - 2, 9);
            }
            fact(particles_capacity) / fact(particles_capacity - 2) / 2
        } else {
            2 * particles_capacity
        };
        ParticalStorage {
            capacity_row: capacity_row as usize,
            capacity_col: capacity_col as usize,
            particles: Vec::with_capacity(particles_capacity),
            constraints: Vec::with_capacity(constraints_capacity),
        }
    }

    /// Append one particle, at rest at (x, y), with its clamping radius and
    /// pinned flag.
    pub fn add(&mut self, x: i64, y: i64, radius: i64, is_pinned: bool)
        requires
            0 <= radius,
            old(self).wf(),
        ensures
            final(self).particles@ == old(self).particles@.push(
                rest_particle(x, y, radius, is_pinned),
            ),
            final(self).constraints@ == old(self).constraints@,
            final(self).capacity_row == old(self).capacity_row,
            final(self).capacity_col == old(self).capacity_col,
            final(self).wf(),
    {
        let p = Particle::new(x, y, radius, is_pinned);
        self.particles.push(p);
    }

    /// Apply the downward gravity force to every particle and integrate it,
    /// in slot order; each particle's result depends only on its own state.
    pub fn satisfy_gravity(&mut self, gravity: i64, time_step: i64)
        requires
            -1_000_000 <= time_step <= 1_000_000,
            forall|i: int|
                0 <= i < old(self).particles@.len() ==> tick_fits(
                    #[trigger] old(self).particles@[i],
                    gravity as int,
                    time_step as int,
                ),
        ensures
            final(self).particles@.len() == old(self).particles@.len(),
            forall|i: int|
                0 <= i < old(self).particles@.len() ==> gravity_integrated(
                    old(self).particles@[i],
                    #[trigger] final(self).particles@[i],
                    gravity as int,
                    time_step as int,
                ),
            final(self).constraints@ == old(self).constraints@,
            final(self).capacity_row == old(self).capacity_row,
            final(self).capacity_col == old(self).capacity_col,
    {
        let n = self.particles.len();
        let mut idx: usize = 0;
        while idx < n
            invariant
                n == self.particles@.len(),
                idx <= n,
                -1_000_000 <= time_step <= 1_000_000,
                old(self).particles@.len() == n,
                forall|i: int|
                    0 <= i < n ==> tick_fits(
                        #[trigger] old(self).particles@[i],
                        gravity as int,
                        time_step as int,
                    ),
                forall|i: int|
                    idx <= i < n ==> #[trigger] self.particles@[i] == old(self).particles@[i],
                forall|i: int|
                    0 <= i < idx ==> gravity_integrated(
                        old(self).particles@[i],
                        #[trigger] self.particles@[i],
                        gravity as int,
                        time_step as int,
                    ),
                self.constraints@ == old(self).constraints@,
                self.capacity_row == old(self).capacity_row,
                self.capacity_col == old(self).capacity_col,
            decreases n - idx,
        {
            let mut p = self.particles[idx];
            p.apply_force(Vec2 { x: 0, y: gravity });
            p.update(time_step);
            self.particles.set(idx, p);
            idx = idx + 1;
        }
    }

    /// One sequential relaxation pass over all constraints, in storage
    /// order, writing corrected positions in place so that later constraints
    /// see earlier corrections.
    pub fn satisfy_constraints(&mut self)
        requires
            old(self).wf(),
            all_in_span(old(self).particles@),
        ensures
            final(self).particles@ == relax_pass(old(self).particles@, old(self).constraints@),
            final(self).particles@.len() == old(self).particles@.len(),
            final(self).constraints@ == old(self).constraints@,
            final(self).capacity_row == old(self).capacity_row,
            final(self).capacity_col == old(self).capacity_col,
            final(self).wf(),
            all_in_span(final(self).particles@),
            forall|i: int|
                0 <= i < old(self).particles@.len() && old(self).particles@[i].is_pinned ==> (
                #[trigger] final(self).particles@[i]).pos == old(self).particles@[i].pos,
            forall|i: int|
                0 <= i < old(self).particles@.len() ==> {
                    let q = #[trigger] final(self).particles@[i];
                    &&& q.prev_pos == old(self).particles@[i].prev_pos
                    &&& q.accl == old(self).particles@[i].accl
                    &&& q.is_pinned == old(self).particles@[i].is_pinned
                    &&& q.radius == old(self).particles@[i].radius
                },
    {
        let m = self.constraints.len();
        let mut k: usize = 0;
        while k < m
            invariant
                m == self.constraints@.len(),
                k <= m,
                self.constraints@ == old(self).constraints@,
                self.capacity_row == old(self).capacity_row,
                self.capacity_col == old(self).capacity_col,
                old(self).wf(),
                self.particles@.len() == old(self).particles@.len(),
                all_in_span(self.particles@),
                self.particles@ == relax_prefix(
                    old(self).particles@,
                    old(self).constraints@,
                    k as int,
                ),
            decreases m - k,
        {
            let c = self.constraints[k];
            if c.get_active() {
                let i1 = c.p1_index;
                let i2 = c.p2_index;
                let correction = c.get_correction(&self.particles);
                let p1 = self.particles[i1];
                let p2 = self.particles[i2];
                let n1x = p1.pos.x + correction.x;
                let n1y = p1.pos.y + correction.y;
                let n2x = p2.pos.x - correction.x;
                let n2y = p2.pos.y - correction.y;
                if -SPAN_LIMIT <= n1x && n1x <= SPAN_LIMIT && -SPAN_LIMIT <= n1y && n1y
                    <= SPAN_LIMIT && -SPAN_LIMIT <= n2x && n2x <= SPAN_LIMIT && -SPAN_LIMIT <= n2y
                    && n2y <= SPAN_LIMIT {
                    let mut q1 = p1;
                    q1.set_position(Vec2 { x: n1x, y: n1y });
                    let mut q2 = p2;
                    q2.set_position(Vec2 { x: n2x, y: n2y });
                    self.particles.set(i1, q1);
                    self.particles.set(i2, q2);
                }
                proof {
                    assert(self.particles@ =~= relax_step(
                        relax_prefix(old(self).particles@, old(self).constraints@, k as int),
                        old(self).constraints@[k as int],
                    ));
                }
            }
            k = k + 1;
        }
        proof {
            lemma_relax_prefix_frame(old(self).particles@, old(self).constraints@, m as int);
        }
    }

    /// `post` is `pre` clamped to the viewport on both axes.
    pub open spec fn clamped_particle(pre: Particle, post: Particle, w: int, h: int) -> bool {
        &&& post.pos.x == clamped_axis(pre.pos.x as int, pre.radius as int, w - pre.radius)
        &&& post.pos.y == clamped_axis(pre.pos.y as int, pre.radius as int, h - pre.radius)
        &&& post.prev_pos == pre.prev_pos
        &&& post.accl == pre.accl
        &&& post.is_pinned == pre.is_pinned
        &&& post.radius == pre.radius
    }

    /// Clamp every particle - pinned or not - to the viewport bounds.
    pub fn clamp_all_to_bounds(&mut self, width: i64, height: i64)
        requires
            0 <= width,
            0 <= height,
            forall|i: int|
                0 <= i < old(self).particles@.len() ==> (#[trigger] old(
                    self,
                ).particles@[i]).radius >= 0,
        ensures
            final(self).particles@.len() == old(self).particles@.len(),
            forall|i: int|
                0 <= i < old(self).particles@.len() ==> Self::clamped_particle(
                    old(self).particles@[i],
                    #[trigger] final(self).particles@[i],
                    width as int,
                    height as int,
                ),
            final(self).constraints@ == old(self).constraints@,
            final(self).capacity_row == old(self).capacity_row,
            final(self).capacity_col == old(self).capacity_col,
    {
        let n = self.particles.len();
        let mut idx: usize = 0;
        while idx < n
            invariant
                n == self.particles@.len(),
                idx <= n,
                0 <= width,
                0 <= height,
                old(self).particles@.len() == n,
                forall|i: int|
                    0 <= i < n ==> (#[trigger] old(self).particles@[i]).radius >= 0,
                forall|i: int|
                    idx <= i < n ==> #[trigger] self.particles@[i] == old(self).particles@[i],
                forall|i: int|
                    0 <= i < idx ==> Self::clamped_particle(
                        old(self).particles@[i],
                        #[trigger] self.particles@[i],
                        width as int,
                        height as int,
                    ),
                self.constraints@ == old(self).constraints@,
                self.capacity_row == old(self).capacity_row,
                self.capacity_col == old(self).capacity_col,
            decreases n - idx,
        {
            let mut p = self.particles[idx];
            p.constraint_to_bounds(width, height);
            self.particles.set(idx, p);
            idx = idx + 1;
        }
    }
}

/// The unordered pairs of the complete graph on `n` slots, in the order the
/// nested construction loops emit them: all (i, j) with i < j, by rising i.
pub open spec fn complete_from(i: int, j: int, n: int) -> Seq<(int, int)>
    decreases n - i, n - j,
{
    if !(0 <= i && i < n - 1 && i < j && j <= n) {
        Seq::empty()
    } else if j == n {
        complete_from(i + 1, i + 2, n)
    } else {
        seq![(i, j)] + complete_from(i, j + 1, n)
    }
}

/// All unordered pairs of the complete graph on `n` slots.
pub open spec fn complete_pairs(n: int) -> Seq<(int, int)> {
    complete_from(0, 1, n)
}

/// Row-major grid pairs from cell (row, col) on: every cell links to its
/// right neighbor and to the cell below, in the order the loops emit them.
pub open spec fn grid_from(row: int, col: int, r: int, c: int) -> Seq<(int, int)>
    decreases r - row, c - col,
{
    if !(0 <= row && row < r && 0 <= col && col <= c) {
        Seq::empty()
    } else if col == c {
        grid_from(row + 1, 0, r, c)
    } else {
        let right: Seq<(int, int)> = if col < c - 1 {
            seq![(row * c + col, row * c + col + 1)]
        } else {
            Seq::empty()
        };
        let down: Seq<(int, int)> = if row < r - 1 {
            seq![(row * c + col, (row + 1) * c + col)]
        } else {
            Seq::empty()
        };
        right + down + grid_from(row, col + 1, r, c)
    }
}

/// All pairs of the row-major grid mesh with `r` rows and `c` columns.
pub open spec fn grid_pairs(r: int, c: int) -> Seq<(int, int)> {
    grid_from(0, 0, r, c)
}

/// The pair sequence the topology construction follows: the complete graph
/// below ten particles, the grid mesh otherwise.
pub open spec fn topology_pairs(n: int, rows: int, cols: int) -> Seq<(int, int)> {
    if n < 10 {
        complete_pairs(n)
    } else {
        grid_pairs(rows, cols)
    }
}

/// The constraint built for the pair `pr` over the particle snapshot `ps`:
/// the pair's endpoints, their current distance as rest length, active.
pub open spec fn built_constraint(c: Constraint, pr: (int, int), ps: Seq<Particle>) -> bool {
    &&& c.p1_index as int == pr.0
    &&& c.p2_index as int == pr.1
    &&& c.init_length == dist_between(ps, pr.0, pr.1)
    &&& c.is_active
}

/// Doubled length of a complete-graph suffix, in closed form.
proof fn lemma_complete_from_len(i: int, j: int, n: int)
    requires
        0 <= i,
        i < n - 1,
        i < j,
        j <= n,
    ensures
        2 * complete_from(i, j, n).len() == 2 * (n - j) + (n - 2 - i) * (n - 1 - i),
    decreases n - i, n - j,
{
    if j == n {
        assert(complete_from(i, j, n) == complete_from(i + 1, i + 2, n));
        if i + 1 < n - 1 {
            lemma_complete_from_len(i + 1, i + 2, n);
            assert((n - 2 - i) * (n - 1 - i) == (n - 3 - i) * (n - 2 - i) + 2 * (n - 2 - i))
                by (nonlinear_arith);
        } else {
            assert(complete_from(i + 1, i + 2, n) == Seq::<(int, int)>::empty());
            assert((n - 2 - i) * (n - 1 - i) == 0) by (nonlinear_arith)
                requires i == n - 2;
        }
    } else {
        lemma_complete_from_len(i, j + 1, n);
        assert(complete_from(i, j, n) == seq![(i, j)] + complete_from(i, j + 1, n));
        assert(complete_from(i, j, n).len() == 1 + complete_from(i, j + 1, n).len());
    }
}

/// Topology count, complete graph: exactly n * (n - 1) / 2 pairs.
pub proof fn lemma_complete_pairs_count(n: int)
    requires
        0 <= n,
    ensures
        complete_pairs(n).len() == n * (n - 1) / 2,
{
    if n < 2 {
        assert(n * (n - 1) == 0) by (nonlinear_arith)
            requires n == 0 || n == 1;
    } else {
        lemma_complete_from_len(0, 1, n);
        assert(2 * (n - 1) + (n - 2) * (n - 1) == n * (n - 1)) by (nonlinear_arith);
        lemma_div_multiples_vanish(complete_pairs(n).len() as int, 2);
    }
}

/// Length contributed by one grid row from column `col` on.
proof fn lemma_grid_row_len(row: int, col: int, r: int, c: int)
    requires
        0 <= row < r,
        0 <= col <= c,
    ensures
        grid_from(row, col, r, c).len() == (if col <= c - 1 {
            (c - 1 - col) + (if row < r - 1 {
                c - col
            } else {
                0
            })
        } else {
            0
        }) + grid_from(row + 1, 0, r, c).len(),
    decreases c - col,
{
    if col < c {
        lemma_grid_row_len(row, col + 1, r, c);
    }
}

/// Length of the grid suffix starting at a full row, in closed form.
proof fn lemma_grid_rows_len(row: int, r: int, c: int)
    requires
        0 <= row <= r,
        1 <= c,
    ensures
        row < r ==> grid_from(row, 0, r, c).len() == (r - row) * (c - 1) + (r - 1 - row) * c,
        row == r ==> grid_from(row, 0, r, c).len() == 0,
    decreases r - row,
{
    if row < r {
        lemma_grid_rows_len(row + 1, r, c);
        lemma_grid_row_len(row, 0, r, c);
        if row < r - 1 {
            assert((c - 1) + (r - row - 1) * (c - 1) == (r - row) * (c - 1)) by (nonlinear_arith);
            assert(c + (r - 2 - row) * c == (r - 1 - row) * c) by (nonlinear_arith);
        } else {
            assert((r - row) * (c - 1) == c - 1 && (r - 1 - row) * c == 0) by (nonlinear_arith)
                requires row == r - 1;
        }
    }
}

/// Topology count, grid mesh: exactly r * (c - 1) + (r - 1) * c pairs.
pub proof fn lemma_grid_pairs_count(r: int, c: int)
    requires
        1 <= r,
        1 <= c,
    ensures
        grid_pairs(r, c).len() == r * (c - 1) + (r - 1) * c,
{
    lemma_grid_rows_len(0, r, c);
}

/// A row-major cell index lies inside the flat particle range.
proof fn lemma_grid_index_bound(row: int, col: int, r: int, c: int)
    by (nonlinear_arith)
    requires
        0 <= row < r,
        0 <= col < c,
    ensures
        0 <= row * c + col,
        row * c + col < r * c,
{
}

/// Walking one pair off the suffix of the total pair sequence.
proof fn lemma_suffix_step(total: Seq<(int, int)>, l: int, head: (int, int), rest: Seq<(int, int)>)
    requires
        0 <= l <= total.len(),
        total.subrange(l, total.len() as int) == seq![head] + rest,
    ensures
        l < total.len(),
        total[l] == head,
        total.subrange(l + 1, total.len() as int) == rest,
{
    let t = total.len() as int;
    assert(total.subrange(l, t).len() == 1 + rest.len());
    assert(total.subrange(l, t)[0] == total[l]);
    assert((seq![head] + rest)[0] == head);
    assert forall|m: int| 0 <= m < rest.len() implies total.subrange(l + 1, t)[m] == rest[m] by {
        assert(total.subrange(l, t)[m + 1] == total[l + 1 + m]);
        assert((seq![head] + rest)[m + 1] == rest[m]);
    }
    assert(total.subrange(l + 1, t) =~= rest);
}

impl ParticalStorage {
    /// Build the constraint topology, exactly once, after all particles are
    /// in place: the complete graph on fewer than ten particles, otherwise
    /// the row-major grid mesh of the stored extents.
    pub fn add_constraints(&mut self)
        requires
            old(self).constraints@.len() == 0,
            1 <= old(self).particles@.len(),
            all_in_span(old(self).particles@),
            old(self).particles@.len() >= 10 ==> old(self).particles@.len() == old(
                self,
            ).capacity_row * old(self).capacity_col,
        ensures
            final(self).particles@ == old(self).particles@,
            final(self).capacity_row == old(self).capacity_row,
            final(self).capacity_col == old(self).capacity_col,
            final(self).constraints@.len() == topology_pairs(
                old(self).particles@.len() as int,
                old(self).capacity_row as int,
                old(self).capacity_col as int,
            ).len(),
            forall|k: int|
                0 <= k < final(self).constraints@.len() ==> built_constraint(
                    #[trigger] final(self).constraints@[k],
                    topology_pairs(
                        old(self).particles@.len() as int,
                        old(self).capacity_row as int,
                        old(self).capacity_col as int,
                    )[k],
                    old(self).particles@,
                ),
            final(self).wf(),
    {
        let n = self.particles.len();
        if n < 10 {
            let ghost total = complete_pairs(n as int);
            proof {
                assert(total.subrange(0, total.len() as int) =~= total);
            }
            let mut i: usize = 0;
            while i < n - 1
                invariant
                    n == self.particles@.len(),
                    1 <= n < 10,
                    self.particles@ == old(self).particles@,
                    all_in_span(self.particles@),
                    self.capacity_row == old(self).capacity_row,
                    self.capacity_col == old(self).capacity_col,
                    total == complete_pairs(n as int),
                    i <= n - 1,
                    self.constraints@.len() <= total.len(),
                    forall|k: int|
                        0 <= k < self.constraints@.len() ==> built_constraint(
                            #[trigger] self.constraints@[k],
                            total[k],
                            self.particles@,
                        ),
                    forall|k: int|
                        0 <= k < self.constraints@.len() ==> constraint_wf(
                            #[trigger] self.constraints@[k],
                            n as int,
                        ),
                    total.subrange(self.constraints@.len() as int, total.len() as int)
                        == complete_from(i as int, i as int + 1, n as int),
                decreases n - 1 - i,
            {
                let mut j: usize = i + 1;
                while j < n
                    invariant
                        n == self.particles@.len(),
                        1 <= n < 10,
                        self.particles@ == old(self).particles@,
                        all_in_span(self.particles@),
                        self.capacity_row == old(self).capacity_row,
                        self.capacity_col == old(self).capacity_col,
                        total == complete_pairs(n as int),
                        i < n - 1,
                        i + 1 <= j <= n,
                        self.constraints@.len() <= total.len(),
                        forall|k: int|
                            0 <= k < self.constraints@.len() ==> built_constraint(
                                #[trigger] self.constraints@[k],
                                total[k],
                                self.particles@,
                            ),
                        forall|k: int|
                            0 <= k < self.constraints@.len() ==> constraint_wf(
                                #[trigger] self.constraints@[k],
                                n as int,
                            ),
                        total.subrange(self.constraints@.len() as int, total.len() as int)
                            == complete_from(i as int, j as int, n as int),
                    decreases n - j,
                {
                    let ghost l = self.constraints@.len() as int;
                    proof {
                        lemma_suffix_step(
                            total,
                            l,
                            (i as int, j as int),
                            complete_from(i as int, j as int + 1, n as int),
                        );
                    }
                    let cnew = Constraint::new(i, j, &self.particles);
                    self.constraints.push(cnew);
                    j = j + 1;
                }
                i = i + 1;
            }
            proof {
                assert(complete_from(i as int, i as int + 1, n as int) == Seq::<(
                    int,
                    int,
                )>::empty());
                assert(self.constraints@.len() == total.len());
            }
        } else {
            let rows = self.capacity_row;
            let cols = self.capacity_col;
            let ghost total = grid_pairs(rows as int, cols as int);
            proof {
                assert(total.subrange(0, total.len() as int) =~= total);
            }
            let mut row: usize = 0;
            while row < rows
                invariant
                    n == self.particles@.len(),
                    n >= 10,
                    n == rows * cols,
                    rows == self.capacity_row,
                    cols == self.capacity_col,
                    self.particles@ == old(self).particles@,
                    all_in_span(self.particles@),
                    self.capacity_row == old(self).capacity_row,
                    self.capacity_col == old(self).capacity_col,
                    total == grid_pairs(rows as int, cols as int),
                    row <= rows,
                    self.constraints@.len() <= total.len(),
                    forall|k: int|
                        0 <= k < self.constraints@.len() ==> built_constraint(
                            #[trigger] self.constraints@[k],
                            total[k],
                            self.particles@,
                        ),
                    forall|k: int|
                        0 <= k < self.constraints@.len() ==> constraint_wf(
                            #[trigger] self.constraints@[k],
                            n as int,
                        ),
                    total.subrange(self.constraints@.len() as int, total.len() as int)
                        == grid_from(row as int, 0, rows as int, cols as int),
                decreases rows - row,
            {
                let mut col: usize = 0;
                while col < cols
                    invariant
                        n == self.particles@.len(),
                        n >= 10,
                        n == rows * cols,
                        rows == self.capacity_row,
                        cols == self.capacity_col,
                        self.particles@ == old(self).particles@,
                        all_in_span(self.particles@),
                        self.capacity_row == old(self).capacity_row,
                        self.capacity_col == old(self).capacity_col,
                        total == grid_pairs(rows as int, cols as int),
                        row < rows,
                        col <= cols,
                        self.constraints@.len() <= total.len(),
                        forall|k: int|
                            0 <= k < self.constraints@.len() ==> built_constraint(
                                #[trigger] self.constraints@[k],
                                total[k],
                                self.particles@,
                            ),
                        forall|k: int|
                            0 <= k < self.constraints@.len() ==> constraint_wf(
                                #[trigger] self.constraints@[k],
                                n as int,
                            ),
                        total.subrange(self.constraints@.len() as int, total.len() as int)
                            == grid_from(row as int, col as int, rows as int, cols as int),
                    decreases cols - col,
                {
                    proof {
                        lemma_grid_index_bound(row as int, col as int, rows as int, cols as int);
                        assert((row as int + 1) * (cols as int) == (row as int) * (cols as int)
                            + cols as int) by (nonlinear_arith);
                    }
                    let base = row * cols + col;
                    let ghost ro = row as int;
                    let ghost co = col as int;
                    let ghost ri = rows as int;
                    let ghost ci = cols as int;
                    let ghost right_s: Seq<(int, int)> = if co < ci - 1 {
                        seq![(ro * ci + co, ro * ci + co + 1)]
                    } else {
                        Seq::empty()
                    };
                    let ghost down_s: Seq<(int, int)> = if ro < ri - 1 {
                        seq![(ro * ci + co, (ro + 1) * ci + co)]
                    } else {
                        Seq::empty()
                    };
                    let ghost rest = grid_from(ro, co + 1, ri, ci);
                    proof {
                        assert(grid_from(ro, co, ri, ci) == right_s + down_s + rest);
                    }
                    if col < cols - 1 {
                        proof {
                            lemma_grid_index_bound(ro, co + 1, ri, ci);
                            assert(right_s + down_s + rest =~= seq![(base as int, base as int + 1)]
                                + (down_s + rest));
                            lemma_suffix_step(
                                total,
                                self.constraints@.len() as int,
                                (base as int, base as int + 1),
                                down_s + rest,
                            );
                        }
                        let cnew = Constraint::new(base, base + 1, &self.particles);
                        self.constraints.push(cnew);
                    }
                    if row < rows - 1 {
                        proof {
                            lemma_grid_index_bound(ro + 1, co, ri, ci);
                            if co < ci - 1 {
                                assert(down_s + rest =~= seq![
                                    (base as int, (ro + 1) * ci + co),
                                ] + rest);
                            } else {
                                assert(right_s + down_s + rest =~= seq![
                                    (base as int, (ro + 1) * ci + co),
                                ] + rest);
                            }
                            lemma_suffix_step(
                                total,
                                self.constraints@.len() as int,
                                (base as int, (ro + 1) * ci + co),
                                rest,
                            );
                        }
                        let down = (row + 1) * cols + col;
                        let cnew = Constraint::new(base, down, &self.particles);
                        self.constraints.push(cnew);
                    }
                    proof {
                        if !(co < ci - 1) && !(ro < ri - 1) {
                            assert(right_s + down_s + rest =~= rest);
                        }
                    }
                    col = col + 1;
                }
                row = row + 1;
            }
            proof {
                assert(grid_from(rows as int, 0, rows as int, cols as int) == Seq::<(
                    int,
                    int,
                )>::empty());
                assert(self.constraints@.len() == total.len());
            }
        }
    }
}

/// The floor distance from the query point to the segment between the
/// positions of the endpoints of constraint `c`.
pub open spec fn constraint_dist(ps: Seq<Particle>, c: Constraint, px: int, py: int) -> int {
    seg_dist(
        px,
        py,
        ps[c.p1_index as int].pos.x as int,
        ps[c.p1_index as int].pos.y as int,
        ps[c.p2_index as int].pos.x as int,
        ps[c.p2_index as int].pos.y as int,
    )
}

/// Every particle's coordinates lie within the range the point-to-segment
/// distance accepts.
pub open spec fn all_in_coord(ps: Seq<Particle>) -> bool {
    forall|i: int|
        0 <= i < ps.len() ==> {
            &&& -COORD_LIMIT <= (#[trigger] ps[i]).pos.x <= COORD_LIMIT
            &&& -COORD_LIMIT <= ps[i].pos.y <= COORD_LIMIT
        }
}

impl ParticalStorage {
    /// The first active constraint whose segment attains the minimum floor
    /// distance to (x, y), provided that minimum is below `tolerance`;
    /// inactive constraints are never candidates.
    pub fn find_nearest_constraint(&self, x: i64, y: i64, tolerance: i64) -> (r: Option<usize>)
        requires
            self.wf(),
            all_in_coord(self.particles@),
            -COORD_LIMIT <= x <= COORD_LIMIT,
            -COORD_LIMIT <= y <= COORD_LIMIT,
        ensures
            match r {
                Option::Some(k) => {
                    &&& k < self.constraints@.len()
                    &&& self.constraints@[k as int].is_active
                    &&& constraint_dist(
                        self.particles@,
                        self.constraints@[k as int],
                        x as int,
                        y as int,
                    ) < tolerance
                    &&& forall|j: int|
                        0 <= j < self.constraints@.len() && (
                        #[trigger] self.constraints@[j]).is_active ==> constraint_dist(
                            self.particles@,
                            self.constraints@[j],
                            x as int,
                            y as int,
                        ) >= constraint_dist(
                            self.particles@,
                            self.constraints@[k as int],
                            x as int,
                            y as int,
                        )
                    &&& forall|j: int|
                        0 <= j < k as int && (#[trigger] self.constraints@[j]).is_active
                            ==> constraint_dist(
                            self.particles@,
                            self.constraints@[j],
                            x as int,
                            y as int,
                        ) > constraint_dist(
                            self.particles@,
                            self.constraints@[k as int],
                            x as int,
                            y as int,
                        )
                },
                Option::None => forall|j: int|
                    0 <= j < self.constraints@.len() && (#[trigger] self.constraints@[j]).is_active
                        ==> constraint_dist(
                        self.particles@,
                        self.constraints@[j],
                        x as int,
                        y as int,
                    ) >= tolerance,
            },
    {
        let mut min_dist: i64 = tolerance;
        let mut nearest: Option<usize> = None;
        let m = self.constraints.len();
        let mut k: usize = 0;
        while k < m
            invariant
                self.wf(),
                all_in_coord(self.particles@),
                -COORD_LIMIT <= x <= COORD_LIMIT,
                -COORD_LIMIT <= y <= COORD_LIMIT,
                m == self.constraints@.len(),
                k <= m,
                match nearest {
                    Option::Some(b) => {
                        &&& (b as int) < k as int
                        &&& self.constraints@[b as int].is_active
                        &&& min_dist == constraint_dist(
                            self.particles@,
                            self.constraints@[b as int],
                            x as int,
                            y as int,
                        )
                        &&& min_dist < tolerance
                        &&& forall|j: int|
                            0 <= j < k as int && (#[trigger] self.constraints@[j]).is_active
                                ==> constraint_dist(
                                self.particles@,
                                self.constraints@[j],
                                x as int,
                                y as int,
                            ) >= min_dist
                        &&& forall|j: int|
                            0 <= j < b as int && (#[trigger] self.constraints@[j]).is_active
                                ==> constraint_dist(
                                self.particles@,
                                self.constraints@[j],
                                x as int,
                                y as int,
                            ) > min_dist
                    },
                    Option::None => {
                        &&& min_dist == tolerance
                        &&& forall|j: int|
                            0 <= j < k as int && (#[trigger] self.constraints@[j]).is_active
                                ==> constraint_dist(
                                self.particles@,
                                self.constraints@[j],
                                x as int,
                                y as int,
                            ) >= tolerance
                    },
                },
            decreases m - k,
        {
            let c = self.constraints[k];
            if c.get_active() {
                let p1 = self.particles[c.p1_index].get_position();
                let p2 = self.particles[c.p2_index].get_position();
                let dist = point_to_segment_distance_v(x, y, p1.x, p1.y, p2.x, p2.y);
                if dist < min_dist {
                    min_dist = dist;
                    nearest = Some(k);
                }
            }
            k = k + 1;
        }
        nearest
    }

    /// Tear the cloth at `pos`: deactivate the one active constraint nearest
    /// to it if its distance is below `tolerance`; otherwise change nothing.
    pub fn tear_cloth(&mut self, pos: Vec2, tolerance: i64)
        requires
            old(self).wf(),
            all_in_coord(old(self).particles@),
            -COORD_LIMIT <= pos.x <= COORD_LIMIT,
            -COORD_LIMIT <= pos.y <= COORD_LIMIT,
        ensures
            final(self).particles@ == old(self).particles@,
            final(self).capacity_row == old(self).capacity_row,
            final(self).capacity_col == old(self).capacity_col,
            final(self).wf(),
            (forall|j: int|
                0 <= j < old(self).constraints@.len() && (
                #[trigger] old(self).constraints@[j]).is_active ==> constraint_dist(
                    old(self).particles@,
                    old(self).constraints@[j],
                    pos.x as int,
                    pos.y as int,
                ) >= tolerance) ==> final(self).constraints@ == old(self).constraints@,
            (exists|j: int|
                0 <= j < old(self).constraints@.len() && (
                #[trigger] old(self).constraints@[j]).is_active && constraint_dist(
                    old(self).particles@,
                    old(self).constraints@[j],
                    pos.x as int,
                    pos.y as int,
                ) < tolerance) ==> exists|k: int|
                {
                    &&& 0 <= k < old(self).constraints@.len()
                    &&& (#[trigger] old(self).constraints@[k]).is_active
                    &&& constraint_dist(
                        old(self).particles@,
                        old(self).constraints@[k],
                        pos.x as int,
                        pos.y as int,
                    ) < tolerance
                    &&& forall|j: int|
                        0 <= j < old(self).constraints@.len() && (
                        #[trigger] old(self).constraints@[j]).is_active ==> constraint_dist(
                            old(self).particles@,
                            old(self).constraints@[j],
                            pos.x as int,
                            pos.y as int,
                        ) >= constraint_dist(
                            old(self).particles@,
                            old(self).constraints@[k],
                            pos.x as int,
                            pos.y as int,
                        )
                    &&& forall|j: int|
                        0 <= j < k && (#[trigger] old(self).constraints@[j]).is_active
                            ==> constraint_dist(
                            old(self).particles@,
                            old(self).constraints@[j],
                            pos.x as int,
                            pos.y as int,
                        ) > constraint_dist(
                            old(self).particles@,
                            old(self).constraints@[k],
                            pos.x as int,
                            pos.y as int,
                        )
                    &&& final(self).constraints@ == old(self).constraints@.update(
                        k,
                        deactivated(old(self).constraints@[k]),
                    )
                },
    {
        let result = self.find_nearest_constraint(pos.x, pos.y, tolerance);
        match result {
            Some(k) => {
                let mut c = self.constraints[k];
                c.deactivate();
                self.constraints.set(k, c);
            },
            None => {},
        }
    }
}

} // verus!
