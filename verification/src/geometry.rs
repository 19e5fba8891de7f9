use vstd::prelude::*;
use vstd::math::abs;

verus! {

/// Coordinates are stored as integers in tenth-microdegree units
/// (one unit is 1e-7 degree), so 49.0 degrees is stored as 490_000_000.
pub const COORD_UNITS_PER_DEGREE: i64 = 10_000_000;

/// Largest magnitude a stored coordinate may have, in tenth-microdegrees.
/// The bound is far beyond any geographic value and keeps every distance
/// and cost computation inside fixed-width integers.
pub const MAX_COORD: i64 = 1_000_000_000_000;

/// Metres per degree of latitude (flat-earth approximation).
pub const LAT_METERS_PER_DEGREE: u64 = 111_229;

/// Metres per degree of longitude, valid near the dataset's reference
/// latitude; a deliberate local approximation, not a great-circle formula.
pub const LON_METERS_PER_DEGREE: u64 = 71_695;

/// Strict upper bound on any distance returned by [`planar_distance`]
/// (in tenth-micrometres), implied by [`MAX_COORD`].
pub const DIST_LIMIT: u64 = 300_000_000_000_000_000;

/// A travel cost in seconds is distance / speed, where distance is in
/// tenth-micrometres and speed comes in km/h: multiplying the distance by
/// 18 and dividing by speed * 50_000_000 performs both unit changes
/// (km/h to m/s is a factor 5/18, tenth-micrometres to metres 1e-7).
pub const COST_NUMER: u64 = 18;

/// See [`COST_NUMER`].
pub const COST_DENOM_PER_KMH: u64 = 50_000_000;

/// An immutable geographic position: latitude and longitude in
/// tenth-microdegrees (see [`COORD_UNITS_PER_DEGREE`]).
#[derive(Clone, Copy, PartialEq, Eq, Structural, Debug)]
pub struct Point {
    pub lat: i64,
    pub lon: i64,
}

/// Both coordinates of `p` are within the supported magnitude.
pub open spec fn coord_ok(p: Point) -> bool {
    &&& -MAX_COORD <= p.lat <= MAX_COORD
    &&& -MAX_COORD <= p.lon <= MAX_COORD
}

/// The squared planar distance between `a` and `b` in squared
/// tenth-micrometres: latitude and longitude differences are scaled by the
/// local metres-per-degree constants and combined as a Euclidean norm.
pub open spec fn dist_sq(a: Point, b: Point) -> int {
    let dlat = abs(a.lat - b.lat) * (LAT_METERS_PER_DEGREE as int);
    let dlon = abs(a.lon - b.lon) * (LON_METERS_PER_DEGREE as int);
    dlat * dlat + dlon * dlon
}

/// The floor of the square root of `n` (0 for negative `n`).
pub open spec fn sqrt_floor(n: int) -> int
    decreases n,
{
    if n < 1 {
        0
    } else {
        let r = sqrt_floor(n - 1);
        if (r + 1) * (r + 1) <= n {
            r + 1
        } else {
            r
        }
    }
}

pub proof fn lemma_sqrt_floor_bounds(n: int)
    requires
        n >= 0,
    ensures
        0 <= sqrt_floor(n),
        sqrt_floor(n) * sqrt_floor(n) <= n,
        n < (sqrt_floor(n) + 1) * (sqrt_floor(n) + 1),
    decreases n,
{
    if n >= 1 {
        lemma_sqrt_floor_bounds(n - 1);
        let r = sqrt_floor(n - 1);
        if (r + 1) * (r + 1) <= n {
            assert((r + 1) * (r + 1) < (r + 2) * (r + 2)) by (nonlinear_arith)
                requires r >= 0;
            assert(n <= (r + 1) * (r + 1));
        }
    }
}

pub proof fn lemma_sqrt_floor_unique(n: int, r: int)
    requires
        n >= 0,
        r >= 0,
        r * r <= n,
        n < (r + 1) * (r + 1),
    ensures
        r == sqrt_floor(n),
{
    lemma_sqrt_floor_bounds(n);
    let f = sqrt_floor(n);
    if r < f {
        assert((r + 1) * (r + 1) <= f * f) by (nonlinear_arith)
            requires 0 <= r + 1 <= f;
    }
    if f < r {
        assert((f + 1) * (f + 1) <= r * r) by (nonlinear_arith)
            requires 0 <= f + 1 <= r;
    }
}

/// `|a - b|` without overflow, widened through `i128`.
pub fn abs_diff(a: i64, b: i64) -> (r: u64)
    ensures
        r == abs(a - b),
{
    let wide: i128 = (a as i128) - (b as i128);
    if wide < 0 {
        (-wide) as u64
    } else {
        wide as u64
    }
}

/// The floor of the square root of `s`, by binary search on `[0, 2^64]`.
pub fn isqrt(s: u128) -> (r: u64)
    ensures
        r == sqrt_floor(s as int),
{
    let mut lo: u128 = 0;
    let mut hi: u128 = 0x1_0000_0000_0000_0000;
    proof {
        assert((0x1_0000_0000_0000_0000 as int) * (0x1_0000_0000_0000_0000 as int) > u128::MAX as int)
            by (nonlinear_arith);
    }
    while lo + 1 < hi
        invariant
            lo < hi <= 0x1_0000_0000_0000_0000u128,
            lo * lo <= s,
            (s as int) < (hi as int) * (hi as int),
        decreases hi - lo,
    {
        let mid: u128 = lo + (hi - lo) / 2;
        proof {
            assert(lo < mid < hi);
            assert((mid as int) * (mid as int) < (0x1_0000_0000_0000_0000 as int) * (0x1_0000_0000_0000_0000 as int))
                by (nonlinear_arith)
                requires 0 <= mid < 0x1_0000_0000_0000_0000 as int;
        }
        if mid * mid <= s {
            lo = mid;
        } else {
            hi = mid;
        }
    }
    proof {
        lemma_sqrt_floor_unique(s as int, lo as int);
    }
    lo as u64
}

/// The planar distance between `a` and `b` in tenth-micrometres:
/// the floor of the Euclidean norm of the scaled coordinate differences.
pub fn planar_distance(a: Point, b: Point) -> (d: u64)
    requires
        coord_ok(a),
        coord_ok(b),
    ensures
        d == sqrt_floor(dist_sq(a, b)),
        d < DIST_LIMIT,
{
    let dlat: u64 = abs_diff(a.lat, b.lat);
    let dlon: u64 = abs_diff(a.lon, b.lon);
    assert(dlat <= 2_000_000_000_000);
    assert(dlon <= 2_000_000_000_000);
    assert((dlat as int) * (LAT_METERS_PER_DEGREE as int) <= 222_458_000_000_000_000) by (nonlinear_arith)
        requires
            0 <= dlat as int <= 2_000_000_000_000,
            LAT_METERS_PER_DEGREE == 111_229;
    assert((dlon as int) * (LON_METERS_PER_DEGREE as int) <= 143_390_000_000_000_000) by (nonlinear_arith)
        requires
            0 <= dlon as int <= 2_000_000_000_000,
            LON_METERS_PER_DEGREE == 71_695;
    let x: u128 = (dlat as u128) * (LAT_METERS_PER_DEGREE as u128);
    let y: u128 = (dlon as u128) * (LON_METERS_PER_DEGREE as u128);
    assert(x <= 222_458_000_000_000_000);
    assert(y <= 143_390_000_000_000_000);
    assert(x * x + y * y < (DIST_LIMIT as int) * (DIST_LIMIT as int)) by (nonlinear_arith)
        requires
            0 <= x <= 222_458_000_000_000_000,
            0 <= y <= 143_390_000_000_000_000;
    let sq: u128 = x * x + y * y;
    let d = isqrt(sq);
    proof {
        lemma_sqrt_floor_bounds(sq as int);
        assert((d as int) < DIST_LIMIT as int) by (nonlinear_arith)
            requires
                0 <= d as int,
                (d as int) * (d as int) <= sq as int,
                (sq as int) < (DIST_LIMIT as int) * (DIST_LIMIT as int);
    }
    d
}

/// The travel cost over a distance `d` (tenth-micrometres) at
/// `speed_kmh` km/h, in whole seconds truncated toward zero.
pub open spec fn cost_from_distance_spec(d: int, kmh: int) -> int {
    (d * (COST_NUMER as int)) / (kmh * (COST_DENOM_PER_KMH as int))
}

/// The travel cost in whole seconds between `a` and `b` at `kmh` km/h.
/// Extremely short segments legitimately truncate to zero seconds.
pub open spec fn cost_seconds(a: Point, b: Point, kmh: int) -> int {
    cost_from_distance_spec(sqrt_floor(dist_sq(a, b)), kmh)
}

/// See [`cost_from_distance_spec`].
pub fn cost_from_distance(d: u64, speed_kmh: u32) -> (c: u64)
    requires
        d < DIST_LIMIT,
        speed_kmh >= 1,
    ensures
        c == cost_from_distance_spec(d as int, speed_kmh as int),
{
    let num: u128 = (d as u128) * (COST_NUMER as u128);
    let den: u128 = (speed_kmh as u128) * (COST_DENOM_PER_KMH as u128);
    let c128: u128 = num / den;
    proof {
        assert(num / den <= num) by (nonlinear_arith)
            requires den >= 1 && num >= 0;
    }
    c128 as u64
}

} // verus!
