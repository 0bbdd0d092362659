use vstd::prelude::*;
use crate::error::OLPError;

verus! {

/// A WGS-84 coordinate pair held in microdegrees (one millionth of a degree),
/// so that every geometric quantity in the engine is exact integer data.
#[derive(Clone, Copy, PartialEq, Eq, Structural, Debug)]
pub struct GeoPoint {
    pub lat_udeg: i64,
    pub lng_udeg: i64,
}

/// One microdegree of latitude spans about 111.2 millimeters on the ground;
/// planar coordinates below are scaled by 1112 / 10000 to land in meters.
///
/// The projection applies the same scale to longitude at every latitude.  A
/// great-circle distance would shrink east-west spans by the cosine of the
/// latitude; this engine instead uses one uniform planar metric, which keeps
/// the metric symmetric and lets the triangle inequality below be proved
/// exactly.  East-west distances are therefore overstated away from the
/// equator (by about a third at 48 degrees north); catchment thresholds are
/// conservative under this metric, and every stated guarantee holds in it.
pub const UDEG_NUM: i64 = 1112;

pub const UDEG_DEN: i64 = 10000;

pub const LAT_LIMIT_UDEG: i64 = 90_000_000;

pub const LNG_LIMIT_UDEG: i64 = 180_000_000;

impl GeoPoint {
    /// A coordinate pair is valid when it lies inside the WGS-84 domain.
    pub open spec fn valid(self) -> bool {
        -LAT_LIMIT_UDEG <= self.lat_udeg <= LAT_LIMIT_UDEG
            && -LNG_LIMIT_UDEG <= self.lng_udeg <= LNG_LIMIT_UDEG
    }

    /// Planar northing in meters, measured from the south pole on an
    /// equirectangular projection.
    pub open spec fn y_m(self) -> int {
        (self.lat_udeg + LAT_LIMIT_UDEG) as int * (UDEG_NUM as int) / (UDEG_DEN as int)
    }

    /// Planar easting in meters, measured from the antimeridian.
    pub open spec fn x_m(self) -> int {
        (self.lng_udeg + LNG_LIMIT_UDEG) as int * (UDEG_NUM as int) / (UDEG_DEN as int)
    }
}

impl GeoPoint {
    /// Builds a point from microdegree coordinates, rejecting out-of-domain
    /// values with a geometry error.
    pub fn new(lat_udeg: i64, lng_udeg: i64) -> (r: Result<GeoPoint, OLPError>)
        ensures
            match r {
                Ok(p) => p == (GeoPoint { lat_udeg, lng_udeg }) && p.valid(),
                Err(_) => !(GeoPoint { lat_udeg, lng_udeg }).valid(),
            },
    {
        if -LAT_LIMIT_UDEG <= lat_udeg && lat_udeg <= LAT_LIMIT_UDEG && -LNG_LIMIT_UDEG
            <= lng_udeg && lng_udeg <= LNG_LIMIT_UDEG {
            Ok(GeoPoint { lat_udeg, lng_udeg })
        } else {
            Err(OLPError::geometry_error("coordinate out of the WGS-84 domain"))
        }
    }
}

/// Squared planar separation of two points, in square meters.
pub open spec fn sq_dist(a: GeoPoint, b: GeoPoint) -> int {
    (a.x_m() - b.x_m()) * (a.x_m() - b.x_m()) + (a.y_m() - b.y_m()) * (a.y_m() - b.y_m())
}

/// The integer square root rounded down: the largest r with r * r <= n.
pub open spec fn isqrt_spec(n: nat) -> nat
    decreases n,
{
    if n == 0 {
        0
    } else {
        let r = isqrt_spec((n - 1) as nat);
        if (r + 1) * (r + 1) <= n {
            r + 1
        } else {
            r
        }
    }
}

proof fn lemma_square_step(r: nat, n: nat) by (nonlinear_arith)
    requires
        n <= (r + 1) * (r + 1),
    ensures
        n < (r + 2) * (r + 2),
{
}

pub proof fn lemma_isqrt_bounds(n: nat)
    ensures
        isqrt_spec(n) * isqrt_spec(n) <= n,
        n < (isqrt_spec(n) + 1) * (isqrt_spec(n) + 1),
    decreases n,
{
    if n > 0 {
        lemma_isqrt_bounds((n - 1) as nat);
        let r = isqrt_spec((n - 1) as nat);
        assert(isqrt_spec(n) == if (r + 1) * (r + 1) <= n {
            r + 1
        } else {
            r
        });
        if (r + 1) * (r + 1) <= n {
            assert(n <= (r + 1) * (r + 1));
            lemma_square_step(r, n);
            assert(n < (r + 2) * (r + 2));
            assert(isqrt_spec(n) == r + 1);
            assert(isqrt_spec(n) * isqrt_spec(n) == (r + 1) * (r + 1));
            assert((isqrt_spec(n) + 1) * (isqrt_spec(n) + 1) == (r + 2) * (r + 2));
        } else {
            assert(isqrt_spec(n) == r);
            assert(r * r <= n - 1 <= n);
            assert(n < (r + 1) * (r + 1));
        }
        assert(n < (isqrt_spec(n) + 1) * (isqrt_spec(n) + 1));
    } else {
        let k = isqrt_spec(n);
        assert(k == 0);
        assert((k + 1) * (k + 1) == 1) by (nonlinear_arith)
            requires
                k == 0,
        ;
    }
}

/// Any value bracketed the same way as the rounded-down square root equals it.
pub proof fn lemma_isqrt_unique(n: nat, r: nat)
    requires
        r * r <= n,
        n < (r + 1) * (r + 1),
    ensures
        r == isqrt_spec(n),
{
    lemma_isqrt_bounds(n);
    let s = isqrt_spec(n);
    assert(r == s) by (nonlinear_arith)
        requires
            r * r <= n,
            n < (r + 1) * (r + 1),
            s * s <= n,
            n < (s + 1) * (s + 1),
    ;
}

/// Straight-line (direct) distance in whole meters, rounded down.
pub open spec fn dist_floor(a: GeoPoint, b: GeoPoint) -> int {
    isqrt_spec(sq_dist(a, b) as nat) as int
}

/// Straight-line distance in whole meters, rounded up; connector legs and
/// street segments are measured this way so that a routed distance never
/// undercuts the direct one.
pub open spec fn dist_ceil(a: GeoPoint, b: GeoPoint) -> int {
    let r = isqrt_spec(sq_dist(a, b) as nat);
    if r * r == sq_dist(a, b) {
        r as int
    } else {
        r as int + 1
    }
}

pub proof fn lemma_sq_dist_nonneg(a: GeoPoint, b: GeoPoint)
    ensures
        sq_dist(a, b) >= 0,
        sq_dist(a, b) == sq_dist(b, a),
{
    let dx = a.x_m() - b.x_m();
    let dy = a.y_m() - b.y_m();
    assert(dx * dx >= 0 && dy * dy >= 0 && dx * dx == (-dx) * (-dx) && dy * dy == (-dy) * (-dy))
        by (nonlinear_arith);
}

pub proof fn lemma_dist_symmetric(a: GeoPoint, b: GeoPoint)
    ensures
        dist_floor(a, b) == dist_floor(b, a),
        dist_ceil(a, b) == dist_ceil(b, a),
{
    lemma_sq_dist_nonneg(a, b);
}

pub proof fn lemma_dist_zero(p: GeoPoint)
    ensures
        dist_floor(p, p) == 0,
        dist_ceil(p, p) == 0,
{
    assert(sq_dist(p, p) == 0) by (nonlinear_arith);
}

pub proof fn lemma_dist_floor_le_ceil(a: GeoPoint, b: GeoPoint)
    ensures
        0 <= dist_floor(a, b) <= dist_ceil(a, b),
{
    lemma_sq_dist_nonneg(a, b);
    lemma_isqrt_bounds(sq_dist(a, b) as nat);
}

/// The rounded-up distance squared is at least the squared separation.
proof fn lemma_ceil_sq_ge(a: GeoPoint, b: GeoPoint)
    ensures
        dist_ceil(a, b) * dist_ceil(a, b) >= sq_dist(a, b),
        dist_ceil(a, b) >= 0,
{
    lemma_sq_dist_nonneg(a, b);
    let n = sq_dist(a, b) as nat;
    lemma_isqrt_bounds(n);
    let r = isqrt_spec(n);
    if r * r != n {
        assert((r + 1) * (r + 1) > n);
    }
}

proof fn lemma_sq_mul(x: int, y: int) by (nonlinear_arith)
    ensures
        (x * y) * (x * y) == (x * x) * (y * y),
{
}

proof fn lemma_prod_swap(a: int, b: int, c: int, d: int) by (nonlinear_arith)
    ensures
        (a * c) * (b * d) == (a * d) * (b * c),
{
}

proof fn lemma_distrib4(a1: int, a2: int, b1: int, b2: int) by (nonlinear_arith)
    ensures
        (a1 + a2) * (b1 + b2) == a1 * b1 + a1 * b2 + a2 * b1 + a2 * b2,
{
}

proof fn lemma_sq_sum(p: int, q: int) by (nonlinear_arith)
    ensures
        (p + q) * (p + q) == p * p + 2 * (p * q) + q * q,
{
}

proof fn lemma_sq_diff(s: int, t: int) by (nonlinear_arith)
    ensures
        (s - t) * (s - t) == s * s - 2 * (s * t) + t * t,
        (s - t) * (s - t) >= 0,
{
}

/// Two-dimensional Cauchy-Schwarz over the integers.
proof fn lemma_cauchy_schwarz(ux: int, uy: int, vx: int, vy: int)
    ensures
        (ux * vx + uy * vy) * (ux * vx + uy * vy) <= (ux * ux + uy * uy) * (vx * vx + vy * vy),
{
    lemma_distrib4(ux * ux, uy * uy, vx * vx, vy * vy);
    lemma_sq_mul(ux, vx);
    lemma_sq_mul(ux, vy);
    lemma_sq_mul(uy, vx);
    lemma_sq_mul(uy, vy);
    lemma_sq_sum(ux * vx, uy * vy);
    lemma_sq_diff(ux * vy, uy * vx);
    lemma_prod_swap(ux, uy, vx, vy);
}

proof fn lemma_neg_square(t: int) by (nonlinear_arith)
    ensures
        t * t == (-t) * (-t),
{
}

proof fn lemma_expand_sum(ux: int, uy: int, vx: int, vy: int) by (nonlinear_arith)
    ensures
        (ux + vx) * (ux + vx) + (uy + vy) * (uy + vy) == (ux * ux + uy * uy) + (vx * vx + vy
            * vy) + 2 * (ux * vx + uy * vy),
{
}

proof fn lemma_tri_close(f: int, e: int, g: int, aa: int, bb: int, cc: int) by (nonlinear_arith)
    requires
        f >= 0 && e >= 0 && g >= 0,
        f * f <= aa < (f + 1) * (f + 1),
        bb <= e * e,
        g * g <= cc,
        cc <= aa + bb,
    ensures
        g <= f + e,
{
}

proof fn lemma_tri_far(f: int, e: int, g: int, aa: int, bb: int, cc: int, dot: int)
    by (nonlinear_arith)
    requires
        f >= 0 && e >= 0 && g >= 0,
        dot > 0,
        f * f <= aa < (f + 1) * (f + 1),
        bb <= e * e,
        g * g <= cc,
        cc == aa + bb + 2 * dot,
        dot * dot <= aa * bb,
    ensures
        g <= f + e,
{
}

/// Rounded triangle inequality: a direct hop rounded down never exceeds a
/// direct leg rounded down plus a further leg rounded up.
pub proof fn lemma_triangle(a: GeoPoint, b: GeoPoint, c: GeoPoint)
    ensures
        dist_floor(a, c) <= dist_floor(a, b) + dist_ceil(b, c),
{
    lemma_sq_dist_nonneg(a, b);
    lemma_sq_dist_nonneg(b, c);
    lemma_sq_dist_nonneg(a, c);
    let ux = b.x_m() - a.x_m();
    let uy = b.y_m() - a.y_m();
    let vx = c.x_m() - b.x_m();
    let vy = c.y_m() - b.y_m();
    let aa = sq_dist(a, b);
    let bb = sq_dist(b, c);
    let cc = sq_dist(a, c);
    let dot = ux * vx + uy * vy;
    lemma_neg_square(a.x_m() - b.x_m());
    lemma_neg_square(a.y_m() - b.y_m());
    lemma_neg_square(b.x_m() - c.x_m());
    lemma_neg_square(b.y_m() - c.y_m());
    lemma_neg_square(a.x_m() - c.x_m());
    lemma_neg_square(a.y_m() - c.y_m());
    assert(aa == ux * ux + uy * uy);
    assert(bb == vx * vx + vy * vy);
    assert(cc == (ux + vx) * (ux + vx) + (uy + vy) * (uy + vy));
    lemma_expand_sum(ux, uy, vx, vy);
    lemma_cauchy_schwarz(ux, uy, vx, vy);
    let f = dist_floor(a, b);
    let e = dist_ceil(b, c);
    let g = dist_floor(a, c);
    lemma_isqrt_bounds(aa as nat);
    lemma_isqrt_bounds(cc as nat);
    lemma_ceil_sq_ge(b, c);
    lemma_dist_floor_le_ceil(a, b);
    if dot <= 0 {
        lemma_tri_close(f, e, g, aa, bb, cc);
    } else {
        lemma_tri_far(f, e, g, aa, bb, cc, dot);
    }
}

/// Exact integer square root of a 64-bit value, rounded down.
pub fn isqrt(n: u64) -> (r: u64)
    ensures
        r == isqrt_spec(n as nat),
{
    let mut lo: u64 = 0;
    let mut hi: u64 = 4294967296;
    proof {
        assert((n as nat) < 4294967296nat * 4294967296nat) by (nonlinear_arith)
            requires
                n <= 0xffff_ffff_ffff_ffffu64,
        ;
    }
    // Binary search keeps lo * lo <= n < hi * hi.
    while hi - lo > 1
        invariant
            lo < hi <= 4294967296,
            (lo as nat) * (lo as nat) <= n as nat,
            (n as nat) < (hi as nat) * (hi as nat),
        decreases hi - lo,
    {
        let mid = lo + (hi - lo) / 2;
        proof {
            assert(lo < mid < hi);
            assert((mid as nat) * (mid as nat) <= 0xffff_fffe_0000_0001nat) by (nonlinear_arith)
                requires
                    mid <= 4294967295u64,
            ;
        }
        if mid * mid <= n {
            lo = mid;
        } else {
            hi = mid;
        }
    }
    proof {
        assert(hi == lo + 1);
        assert((n as nat) < ((lo + 1) as nat) * ((lo + 1) as nat));
        lemma_isqrt_unique(n as nat, lo as nat);
    }
    lo
}

/// Planar coordinates of a point, in meters east and north.
pub fn planar_m(p: &GeoPoint) -> (r: (u64, u64))
    requires
        p.valid(),
    ensures
        r.0 == p.x_m(),
        r.1 == p.y_m(),
{
    let x = ((p.lng_udeg + LNG_LIMIT_UDEG) * UDEG_NUM / UDEG_DEN) as u64;
    let y = ((p.lat_udeg + LAT_LIMIT_UDEG) * UDEG_NUM / UDEG_DEN) as u64;
    (x, y)
}

/// Largest planar coordinate a valid point can have.
pub proof fn lemma_planar_bounds(p: GeoPoint)
    requires
        p.valid(),
    ensures
        0 <= p.x_m() <= 40_032_000,
        0 <= p.y_m() <= 20_016_000,
{
}

/// Direct straight-line distance in whole meters, rounded down.
pub fn dist_direct_m(a: &GeoPoint, b: &GeoPoint) -> (r: u64)
    requires
        a.valid(),
        b.valid(),
    ensures
        r == dist_floor(*a, *b),
        r <= 50_000_000,
{
    let (ax, ay) = planar_m(a);
    let (bx, by) = planar_m(b);
    let dx = if ax >= bx {
        ax - bx
    } else {
        bx - ax
    };
    let dy = if ay >= by {
        ay - by
    } else {
        by - ay
    };
    proof {
        lemma_planar_bounds(*a);
        lemma_planar_bounds(*b);
        assert(dx * dx + dy * dy == sq_dist(*a, *b) && dx * dx + dy * dy
            <= 40_032_000u64 * 40_032_000u64 + 20_016_000u64 * 20_016_000u64)
            by (nonlinear_arith)
            requires
                dx == if a.x_m() >= b.x_m() { a.x_m() - b.x_m() } else { b.x_m() - a.x_m() },
                dy == if a.y_m() >= b.y_m() { a.y_m() - b.y_m() } else { b.y_m() - a.y_m() },
                0 <= a.x_m() <= 40_032_000 && 0 <= b.x_m() <= 40_032_000,
                0 <= a.y_m() <= 20_016_000 && 0 <= b.y_m() <= 20_016_000,
        ;
    }
    let sq = dx * dx + dy * dy;
    let r = isqrt(sq);
    proof {
        lemma_sq_dist_nonneg(*a, *b);
        lemma_isqrt_bounds(sq as nat);
        assert(r <= 50_000_000) by (nonlinear_arith)
            requires
                (r as nat) * (r as nat) <= sq as nat,
                sq <= 40_032_000u64 * 40_032_000u64 + 20_016_000u64 * 20_016_000u64,
        ;
    }
    r
}

/// Straight-line distance in whole meters, rounded up; used for connector
/// legs and for validating street-segment lengths.
pub fn dist_up_m(a: &GeoPoint, b: &GeoPoint) -> (r: u64)
    requires
        a.valid(),
        b.valid(),
    ensures
        r == dist_ceil(*a, *b),
        r <= 50_000_001,
{
    let (ax, ay) = planar_m(a);
    let (bx, by) = planar_m(b);
    let dx = if ax >= bx {
        ax - bx
    } else {
        bx - ax
    };
    let dy = if ay >= by {
        ay - by
    } else {
        by - ay
    };
    proof {
        lemma_planar_bounds(*a);
        lemma_planar_bounds(*b);
        assert(dx * dx + dy * dy == sq_dist(*a, *b) && dx * dx + dy * dy
            <= 40_032_000u64 * 40_032_000u64 + 20_016_000u64 * 20_016_000u64)
            by (nonlinear_arith)
            requires
                dx == if a.x_m() >= b.x_m() { a.x_m() - b.x_m() } else { b.x_m() - a.x_m() },
                dy == if a.y_m() >= b.y_m() { a.y_m() - b.y_m() } else { b.y_m() - a.y_m() },
                0 <= a.x_m() <= 40_032_000 && 0 <= b.x_m() <= 40_032_000,
                0 <= a.y_m() <= 20_016_000 && 0 <= b.y_m() <= 20_016_000,
        ;
    }
    let sq = dx * dx + dy * dy;
    let r = isqrt(sq);
    proof {
        lemma_sq_dist_nonneg(*a, *b);
        lemma_isqrt_bounds(sq as nat);
        assert(r <= 50_000_000) by (nonlinear_arith)
            requires
                (r as nat) * (r as nat) <= sq as nat,
                sq <= 40_032_000u64 * 40_032_000u64 + 20_016_000u64 * 20_016_000u64,
        ;
    }
    if r * r == sq {
        r
    } else {
        r + 1
    }
}

} // verus!
