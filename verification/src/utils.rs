//! Exact integer geometry: floor square root, factorial, Euclidean norm, and
//! point-to-segment distance. Every length is the floor of the corresponding
//! real-valued length, so all results are pinned down exactly.

use vstd::prelude::*;

verus! {

use vstd::arithmetic::div_mod::lemma_div_is_ordered;
use vstd::arithmetic::div_mod::lemma_div_multiples_vanish;
use vstd::arithmetic::mul::lemma_mul_is_commutative;

/// Largest coordinate magnitude accepted by the norm helpers: squares of
/// spans between two such coordinates still fit in 128-bit intermediates.
pub const SPAN_LIMIT: i64 = 2_000_000_000_000_000_000;

/// Largest coordinate magnitude accepted by the point-to-segment distance:
/// products of two squared spans still fit in 128-bit intermediates.
pub const COORD_LIMIT: i64 = 1_000_000_000;

/// x * x, as a mathematical integer.
pub open spec fn sq(x: int) -> int {
    x * x
}

/// The floor of the square root of `n` (and 0 for negative `n`),
/// defined by counting upward.
pub open spec fn sqrt_floor(n: int) -> int
    decreases n,
{
    if n < 1 {
        0
    } else {
        let r = sqrt_floor(n - 1);
        if sq(r + 1) <= n {
            r + 1
        } else {
            r
        }
    }
}

/// `sqrt_floor(n)` is a non-negative integer whose square is at most `n`
/// while the next square is beyond `n`.
pub proof fn lemma_sqrt_floor_bounds(n: int)
    requires
        n >= 0,
    ensures
        0 <= sqrt_floor(n),
        sq(sqrt_floor(n)) <= n,
        n < sq(sqrt_floor(n) + 1),
    decreases n,
{
    if n == 0 {
    } else {
        lemma_sqrt_floor_bounds(n - 1);
        let r = sqrt_floor(n - 1);
        if sq(r + 1) <= n {
            assert(sq(r + 2) > sq(r + 1)) by (nonlinear_arith)
                requires r >= 0;
            if n >= sq(r + 2) {
                assert(n - 1 >= sq(r + 1));
                assert(false);
            }
        }
    }
}

/// No two distinct non-negative integers both satisfy the floor-square-root
/// characterization of the same `n`.
pub proof fn lemma_sqrt_floor_unique(n: int, r: int)
    requires
        0 <= r,
        sq(r) <= n,
        n < sq(r + 1),
    ensures
        sqrt_floor(n) == r,
{
    lemma_sqrt_floor_bounds(n);
    let s = sqrt_floor(n);
    if s < r {
        assert(sq(s + 1) <= sq(r)) by (nonlinear_arith)
            requires 0 <= s + 1 <= r;
        assert(false);
    }
    if r < s {
        assert(sq(r + 1) <= sq(s)) by (nonlinear_arith)
            requires 0 <= r + 1 <= s;
        assert(false);
    }
}

/// The floor square root of a perfect square is its root.
pub proof fn lemma_sqrt_floor_of_square(x: int)
    requires
        x >= 0,
    ensures
        sqrt_floor(sq(x)) == x,
{
    assert(sq(x) >= 0 && sq(x) < sq(x + 1)) by (nonlinear_arith)
        requires x >= 0;
    lemma_sqrt_floor_unique(sq(x), x);
}

/// The floor square root never decreases as its argument grows.
pub proof fn lemma_sqrt_floor_monotone(m: int, n: int)
    requires
        0 <= m <= n,
    ensures
        sqrt_floor(m) <= sqrt_floor(n),
    decreases n - m,
{
    if m < n {
        lemma_sqrt_floor_monotone(m, n - 1);
    }
}

/// Floor square root over unsigned 128-bit integers, by binary search.
pub fn isqrt(n: u128) -> (r: u128)
    ensures
        r == sqrt_floor(n as int),
        sq(r as int) <= n as int,
        (n as int) < sq((r as int) + 1),
{
    let mut lo: u128 = 0;
    let mut hi: u128 = 0xFFFF_FFFF_FFFF_FFFF;
    if n < hi {
        hi = n;
        assert((n as int) < sq((hi as int) + 1)) by (nonlinear_arith)
            requires hi == n, n >= 0;
    } else {
        assert((n as int) < sq((hi as int) + 1)) by (nonlinear_arith)
            requires hi == 0xFFFF_FFFF_FFFF_FFFFu128, n <= u128::MAX;
    }
    while lo < hi
        invariant
            lo <= hi,
            hi <= 0xFFFF_FFFF_FFFF_FFFF,
            sq(lo as int) <= n as int,
            (n as int) < sq((hi as int) + 1),
        decreases hi - lo,
    {
        let mid: u128 = lo + (hi - lo + 1) / 2;
        assert(lo < mid && mid <= hi);
        assert(mid * mid <= u128::MAX) by (nonlinear_arith)
            requires mid <= 0xFFFF_FFFF_FFFF_FFFFu128;
        if mid * mid <= n {
            lo = mid;
        } else {
            hi = mid - 1;
        }
    }
    proof {
        lemma_sqrt_floor_unique(n as int, lo as int);
    }
    lo
}

/// n! as a mathematical integer (1 for non-positive n).
pub open spec fn fact_spec(n: int) -> int
    decreases n,
{
    if n <= 0 {
        1
    } else {
        n * fact_spec(n - 1)
    }
}

/// Factorials of non-negative integers are positive.
pub proof fn lemma_fact_positive(n: int)
    requires
        n >= 0,
    ensures
        fact_spec(n) >= 1,
    decreases n,
{
    if n > 0 {
        lemma_fact_positive(n - 1);
        assert(n * fact_spec(n - 1) >= 1 * fact_spec(n - 1)) by (nonlinear_arith)
            requires n >= 1, fact_spec(n - 1) >= 1;
    }
}

/// Factorials are at least 1 and never decrease.
pub proof fn lemma_fact_monotone(m: int, n: int)
    requires
        0 <= m <= n,
    ensures
        1 <= fact_spec(m) <= fact_spec(n),
    decreases n - m,
{
    if m == n {
        lemma_fact_positive(m);
    } else {
        lemma_fact_monotone(m, n - 1);
        assert(fact_spec(n) == n * fact_spec(n - 1));
        assert(n * fact_spec(n - 1) >= 1 * fact_spec(n - 1)) by (nonlinear_arith)
            requires n >= 1, fact_spec(n - 1) >= 1;
    }
}

/// The factorial of `x`, as a running product.
pub fn fact(x: usize) -> (r: usize)
    requires
        fact_spec(x as int) <= usize::MAX,
    ensures
        r == fact_spec(x as int),
{
    let mut result: usize = 1;
    let mut i: usize = 0;
    while i < x
        invariant
            0 <= i <= x,
            result == fact_spec(i as int),
            fact_spec(x as int) <= usize::MAX,
        decreases x - i,
    {
        i = i + 1;
        proof {
            lemma_fact_monotone(i as int, x as int);
            assert(fact_spec(i as int) == i * fact_spec(i - 1));
            lemma_mul_is_commutative(result as int, i as int);
        }
        result = result * i;
    }
    result
}

/// The floor of the Euclidean length of the vector (x, y).
pub open spec fn norm(x: int, y: int) -> int {
    sqrt_floor(sq(x) + sq(y))
}

/// Squared Euclidean distance between two points.
pub open spec fn dist_sq(px: int, py: int, qx: int, qy: int) -> int {
    sq(qx - px) + sq(qy - py)
}

/// The floor of the Euclidean length of (x, y): an exact integer stand-in
/// for the real-valued hypotenuse.
pub fn hypot(x: i64, y: i64) -> (r: i64)
    requires
        -2 * SPAN_LIMIT <= x <= 2 * SPAN_LIMIT,
        -2 * SPAN_LIMIT <= y <= 2 * SPAN_LIMIT,
    ensures
        r == norm(x as int, y as int),
        0 <= r <= 3 * SPAN_LIMIT,
{
    proof {
        assert(0 <= (x as int) * (x as int) <= 16_000_000_000_000_000_000_000_000_000_000_000_000int)
            by (nonlinear_arith)
            requires -4_000_000_000_000_000_000 <= x <= 4_000_000_000_000_000_000;
        assert(0 <= (y as int) * (y as int) <= 16_000_000_000_000_000_000_000_000_000_000_000_000int)
            by (nonlinear_arith)
            requires -4_000_000_000_000_000_000 <= y <= 4_000_000_000_000_000_000;
    }
    let xx: i128 = (x as i128) * (x as i128);
    let yy: i128 = (y as i128) * (y as i128);
    let s: u128 = (xx + yy) as u128;
    let r: u128 = isqrt(s);
    proof {
        assert(r <= 6_000_000_000_000_000_000) by (nonlinear_arith)
            requires
                sq(r as int) <= 32_000_000_000_000_000_000_000_000_000_000_000_000int,
                r >= 0;
    }
    r as i64
}

/// The floor of the Euclidean distance from (px, py) to the segment from
/// (x1, y1) to (x2, y2): the projection parameter onto the supporting line is
/// clamped to [0, 1] and the distance to the clamped projection is measured.
/// A degenerate segment is treated as its single point.
pub open spec fn seg_dist(px: int, py: int, x1: int, y1: int, x2: int, y2: int) -> int {
    let abx = x2 - x1;
    let aby = y2 - y1;
    let apx = px - x1;
    let apy = py - y1;
    let dot = abx * apx + aby * apy;
    let ab2 = sq(abx) + sq(aby);
    if ab2 == 0 || dot <= 0 {
        sqrt_floor(sq(apx) + sq(apy))
    } else if dot >= ab2 {
        sqrt_floor(dist_sq(px, py, x2, y2))
    } else {
        sqrt_floor(((sq(apx) + sq(apy)) * ab2 - sq(dot)) / ab2)
    }
}

/// The floor of the Euclidean distance from the point (px, py) to the
/// segment between (x1, y1) and (x2, y2).
pub fn point_to_segment_distance_v(px: i64, py: i64, x1: i64, y1: i64, x2: i64, y2: i64) -> (r: i64)
    requires
        -COORD_LIMIT <= px <= COORD_LIMIT,
        -COORD_LIMIT <= py <= COORD_LIMIT,
        -COORD_LIMIT <= x1 <= COORD_LIMIT,
        -COORD_LIMIT <= y1 <= COORD_LIMIT,
        -COORD_LIMIT <= x2 <= COORD_LIMIT,
        -COORD_LIMIT <= y2 <= COORD_LIMIT,
    ensures
        r == seg_dist(px as int, py as int, x1 as int, y1 as int, x2 as int, y2 as int),
        0 <= r <= 3_000_000_000,
{
    let ab_x: i128 = (x2 as i128) - (x1 as i128);
    let ab_y: i128 = (y2 as i128) - (y1 as i128);
    let ap_x: i128 = (px as i128) - (x1 as i128);
    let ap_y: i128 = (py as i128) - (y1 as i128);
    let bp_x: i128 = (px as i128) - (x2 as i128);
    let bp_y: i128 = (py as i128) - (y2 as i128);

    proof {
        lemma_short_product(ab_x as int, ab_x as int);
        lemma_short_product(ab_y as int, ab_y as int);
        lemma_short_product(ap_x as int, ap_x as int);
        lemma_short_product(ap_y as int, ap_y as int);
        lemma_short_product(bp_x as int, bp_x as int);
        lemma_short_product(bp_y as int, bp_y as int);
        lemma_short_product(ab_x as int, ap_x as int);
        lemma_short_product(ab_y as int, ap_y as int);
        lemma_sq_nonneg(ab_x as int);
        lemma_sq_nonneg(ab_y as int);
        lemma_sq_nonneg(ap_x as int);
        lemma_sq_nonneg(ap_y as int);
        lemma_sq_nonneg(bp_x as int);
        lemma_sq_nonneg(bp_y as int);
    }
    let ab_ap: i128 = ab_x * ap_x + ab_y * ap_y;
    let ab_ab: i128 = ab_x * ab_x + ab_y * ab_y;
    let ap_ap: i128 = ap_x * ap_x + ap_y * ap_y;

    if ab_ab == 0 || ab_ap <= 0 {
        let d: u128 = isqrt(ap_ap as u128);
        proof {
            lemma_short_sqrt(ap_ap as int, d as int);
        }
        d as i64
    } else if ab_ap >= ab_ab {
        let bp_bp: i128 = bp_x * bp_x + bp_y * bp_y;
        proof {
            assert(bp_x as int * bp_x as int == sq(x2 as int - px as int)) by (nonlinear_arith)
                requires bp_x as int == -(x2 as int - px as int);
            assert(bp_y as int * bp_y as int == sq(y2 as int - py as int)) by (nonlinear_arith)
                requires bp_y as int == -(y2 as int - py as int);
        }
        let d: u128 = isqrt(bp_bp as u128);
        proof {
            lemma_short_sqrt(bp_bp as int, d as int);
        }
        d as i64
    } else {
        proof {
            lemma_lagrange_identity(ab_x as int, ab_y as int, ap_x as int, ap_y as int);
            lemma_sq_nonneg(ab_x as int * ap_y as int - ab_y as int * ap_x as int);
            assert(0 <= ap_ap * ab_ab <= 64_000_000_000_000_000_000_000_000_000_000_000_000int)
                by (nonlinear_arith)
                requires
                    0 <= ap_ap <= 8_000_000_000_000_000_000i128,
                    0 <= ab_ab <= 8_000_000_000_000_000_000i128;
            assert(0 <= ab_ap * ab_ap <= 64_000_000_000_000_000_000_000_000_000_000_000_000int)
                by (nonlinear_arith)
                requires 0 <= ab_ap <= 8_000_000_000_000_000_000i128;
        }
        let num: u128 = (ap_ap * ab_ab - ab_ap * ab_ap) as u128;
        let den: u128 = ab_ab as u128;
        let q: u128 = num / den;
        proof {
            lemma_div_below_factor(num as int, ap_ap as int, den as int);
        }
        let d: u128 = isqrt(q);
        proof {
            lemma_short_sqrt(q as int, d as int);
        }
        d as i64
    }
}

/// Lagrange's identity for two 2-D vectors: the product of the squared
/// lengths minus the squared dot product is the squared cross product.
/// The square of a sum of two terms.
proof fn lemma_sum_square(x: int, y: int)
    by (nonlinear_arith)
    ensures
        (x + y) * (x + y) == x * x + 2 * (x * y) + y * y,
{
}

/// The square of a difference of two terms.
proof fn lemma_diff_square(x: int, y: int)
    by (nonlinear_arith)
    ensures
        (x - y) * (x - y) == x * x - 2 * (x * y) + y * y,
{
}

/// A product of two sums, expanded.
proof fn lemma_product_of_sums(x: int, y: int, z: int, w: int)
    by (nonlinear_arith)
    ensures
        (x + y) * (z + w) == x * z + x * w + y * z + y * w,
{
}

/// Factors of a product of products can be regrouped.
proof fn lemma_mul_regroup(a: int, b: int, c: int, d: int)
    by (nonlinear_arith)
    ensures
        (a * b) * (c * d) == (a * c) * (b * d),
{
}

/// Lagrange's identity for two 2-D vectors: the product of the squared
/// lengths minus the squared dot product is the squared cross product.
proof fn lemma_lagrange_identity(ux: int, uy: int, vx: int, vy: int)
    ensures
        (vx * vx + vy * vy) * (ux * ux + uy * uy) - (ux * vx + uy * vy) * (ux * vx + uy * vy)
            == (ux * vy - uy * vx) * (ux * vy - uy * vx),
{
    let pa = vx * vx;
    let pb = vy * vy;
    let pc = ux * ux;
    let pd = uy * uy;
    let a = ux * vx;
    let b = uy * vy;
    let c = ux * vy;
    let d = uy * vx;
    lemma_product_of_sums(pa, pb, pc, pd);
    lemma_sum_square(a, b);
    lemma_diff_square(c, d);
    lemma_mul_regroup(ux, vx, ux, vx);
    lemma_mul_regroup(uy, vy, uy, vy);
    lemma_mul_regroup(ux, vy, ux, vy);
    lemma_mul_regroup(uy, vx, uy, vx);
    lemma_mul_regroup(ux, vx, uy, vy);
    lemma_mul_regroup(ux, vy, uy, vx);
    lemma_mul_is_commutative(pa, pc);
    lemma_mul_is_commutative(pa, pd);
    lemma_mul_is_commutative(pb, pc);
    lemma_mul_is_commutative(pb, pd);
    lemma_mul_is_commutative(vx, vy);
    assert(a * b == c * d);
}

/// The quotient of a non-negative `num` by a positive `den` is at most `cap`
/// when `num <= cap * den`.
proof fn lemma_div_below_factor(num: int, cap: int, den: int)
    requires
        0 <= num,
        0 < den,
        0 <= cap,
        num <= cap * den,
    ensures
        0 <= num / den <= cap,
{
    lemma_div_is_ordered(num, cap * den, den);
    lemma_div_multiples_vanish(cap, den);
    lemma_mul_is_commutative(cap, den);
    lemma_div_is_ordered(0, num, den);
}

/// Products of two values spanning at most two coordinate limits stay small.
proof fn lemma_short_product(a: int, b: int)
    requires
        -2_000_000_000 <= a <= 2_000_000_000,
        -2_000_000_000 <= b <= 2_000_000_000,
    ensures
        -4_000_000_000_000_000_000 <= a * b <= 4_000_000_000_000_000_000,
{
    assert(-4_000_000_000_000_000_000 <= a * b <= 4_000_000_000_000_000_000) by (nonlinear_arith)
        requires
            -2_000_000_000 <= a <= 2_000_000_000,
            -2_000_000_000 <= b <= 2_000_000_000;
}

/// Squares are never negative.
proof fn lemma_sq_nonneg(a: int)
    ensures
        0 <= a * a,
{
    assert(0 <= a * a) by (nonlinear_arith);
}

/// A floor square root of a quantity at most 9e18 is at most 3e9.
proof fn lemma_short_sqrt(n: int, d: int)
    requires
        0 <= n <= 9_000_000_000_000_000_000,
        d == sqrt_floor(n),
    ensures
        0 <= d <= 3_000_000_000,
{
    lemma_sqrt_floor_bounds(n);
    assert(d <= 3_000_000_000) by (nonlinear_arith)
        requires
            sq(d) <= 9_000_000_000_000_000_000,
            d >= 0;
}

} // verus!
