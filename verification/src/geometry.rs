//! Exact integer 2D geometry: points, axis-aligned segments, orientation
//! classification, containment, and segment-segment intersection.
//!
//! All coordinates are integers. Lattice coordinates are scaled to world
//! coordinates by the grid cell size, which keeps every wall endpoint exact;
//! intersection points are rounded toward the probe origin, one coordinate at
//! a time, and the contracts state that rounding exactly.
use vstd::prelude::*;

verus! {

/// Largest coordinate magnitude the geometric routines accept. Generous for
/// any maze (window extents times grid scale) while keeping every
/// intermediate product of the intersection solver inside `i128`.
pub const COORD_LIMIT: i64 = 1_000_000_000;

/// A single coordinate is small enough for the arithmetic below.
pub open spec fn in_range(v: int) -> bool {
    -COORD_LIMIT <= v <= COORD_LIMIT
}

/// A 2D point with exact integer coordinates.
#[derive(PartialEq, Eq, Structural, Clone, Copy, Debug)]
pub struct Point {
    pub x: i64,
    pub y: i64,
}

/// Both coordinates of `p` are in range.
pub open spec fn point_in_range(p: Point) -> bool {
    in_range(p.x as int) && in_range(p.y as int)
}

/// Bound on the product of two bounded factors.
proof fn lemma_abs_mul_le(a: int, b: int, ma: int, mb: int)
    by (nonlinear_arith)
    requires
        -ma <= a <= ma,
        -mb <= b <= mb,
        0 <= ma,
        0 <= mb,
    ensures
        -(ma * mb) <= a * b <= ma * mb,
{
}

/// `r` is the floor of the real square root of `n`.
pub open spec fn is_floor_sqrt(n: int, r: int) -> bool {
    0 <= r && r * r <= n < (r + 1) * (r + 1)
}

/// The floor of the real square root of `n`, as a value: the unique `r`
/// with `r * r <= n < (r + 1) * (r + 1)`.
pub open spec fn floor_sqrt(n: int) -> int {
    choose|r: int| is_floor_sqrt(n, r)
}

/// The floor square root is unique, so any witness equals `floor_sqrt`.
pub proof fn lemma_floor_sqrt_unique(n: int, r: int)
    requires
        is_floor_sqrt(n, r),
    ensures
        floor_sqrt(n) == r,
{
    assert(exists|rr: int| is_floor_sqrt(n, rr));
    let r2 = floor_sqrt(n);
    assert(is_floor_sqrt(n, r2));
    assert(r2 == r) by (nonlinear_arith)
        requires
            0 <= r,
            0 <= r2,
            r * r <= n < (r + 1) * (r + 1),
            r2 * r2 <= n < (r2 + 1) * (r2 + 1),
    ;
}

/// Floor of the square root, by binary search.
pub fn isqrt(n: i64) -> (r: i64)
    requires
        0 <= n,
    ensures
        is_floor_sqrt(n as int, r as int),
{
    if n < 4 {
        if n == 0 {
            return 0;
        }
        return 1;
    }
    let mut lo: i64 = 1;
    // One more than the floor square root of i64::MAX, so hi * hi > n always.
    let mut hi: i64 = 3_037_000_500;
    proof {
        assert(3_037_000_500 * 3_037_000_500 > i64::MAX);
    }
    while lo + 1 < hi
        invariant
            1 <= lo < hi <= 3_037_000_500,
            lo * lo <= n,
            n < hi * hi,
        decreases hi - lo,
    {
        let mid: i64 = lo + (hi - lo) / 2;
        proof {
            assert(mid * mid <= 3_037_000_499 * 3_037_000_499) by (nonlinear_arith)
                requires 0 <= mid <= 3_037_000_499;
            assert(3_037_000_499 * 3_037_000_499 < i64::MAX);
        }
        if mid * mid <= n {
            lo = mid;
        } else {
            hi = mid;
        }
    }
    lo
}

impl Point {
    /// Build a point from its coordinates.
    pub fn new(x: i64, y: i64) -> (r: Point)
        ensures
            r.x == x,
            r.y == y,
    {
        Point { x, y }
    }

    /// Componentwise sum.
    pub fn plus(self, other: Point) -> (r: Point)
        requires
            i64::MIN <= self.x + other.x <= i64::MAX,
            i64::MIN <= self.y + other.y <= i64::MAX,
        ensures
            r.x == self.x + other.x,
            r.y == self.y + other.y,
    {
        Point { x: self.x + other.x, y: self.y + other.y }
    }

    /// Componentwise difference.
    pub fn minus(self, other: Point) -> (r: Point)
        requires
            i64::MIN <= self.x - other.x <= i64::MAX,
            i64::MIN <= self.y - other.y <= i64::MAX,
        ensures
            r.x == self.x - other.x,
            r.y == self.y - other.y,
    {
        Point { x: self.x - other.x, y: self.y - other.y }
    }

    /// Uniform scale by an integer factor.
    pub fn scaled(self, k: i64) -> (r: Point)
        requires
            i64::MIN <= self.x * k <= i64::MAX,
            i64::MIN <= self.y * k <= i64::MAX,
        ensures
            r.x == self.x * k,
            r.y == self.y * k,
    {
        Point { x: self.x * k, y: self.y * k }
    }

    /// Dot product.
    pub fn dot(self, other: Point) -> (r: i64)
        requires
            point_in_range(self),
            point_in_range(other),
        ensures
            r == self.x * other.x + self.y * other.y,
    {
        proof {
            lemma_abs_mul_le(self.x as int, other.x as int, COORD_LIMIT as int, COORD_LIMIT as int);
            lemma_abs_mul_le(self.y as int, other.y as int, COORD_LIMIT as int, COORD_LIMIT as int);
        }
        self.x * other.x + self.y * other.y
    }

    /// 2D cross product (signed area of the spanned parallelogram).
    pub fn cross(self, other: Point) -> (r: i64)
        requires
            point_in_range(self),
            point_in_range(other),
        ensures
            r == self.x * other.y - self.y * other.x,
    {
        proof {
            lemma_abs_mul_le(self.x as int, other.y as int, COORD_LIMIT as int, COORD_LIMIT as int);
            lemma_abs_mul_le(self.y as int, other.x as int, COORD_LIMIT as int, COORD_LIMIT as int);
        }
        self.x * other.y - self.y * other.x
    }

    /// Squared Euclidean norm.
    pub fn snorm(self) -> (r: i64)
        requires
            -2 * COORD_LIMIT <= self.x <= 2 * COORD_LIMIT,
            -2 * COORD_LIMIT <= self.y <= 2 * COORD_LIMIT,
        ensures
            r == self.x * self.x + self.y * self.y,
            r >= 0,
    {
        proof {
            assert(0 <= self.x * self.x <= 4_000_000_000_000_000_000) by (nonlinear_arith)
                requires -2_000_000_000 <= self.x <= 2_000_000_000;
            assert(0 <= self.y * self.y <= 4_000_000_000_000_000_000) by (nonlinear_arith)
                requires -2_000_000_000 <= self.y <= 2_000_000_000;
        }
        self.x * self.x + self.y * self.y
    }

    /// Euclidean norm, rounded down to an integer.
    pub fn norm(self) -> (r: i64)
        requires
            -2 * COORD_LIMIT <= self.x <= 2 * COORD_LIMIT,
            -2 * COORD_LIMIT <= self.y <= 2 * COORD_LIMIT,
        ensures
            is_floor_sqrt(self.x * self.x + self.y * self.y, r as int),
            r == floor_sqrt(self.x * self.x + self.y * self.y),
    {
        let r = isqrt(self.snorm());
        proof {
            lemma_floor_sqrt_unique(self.x * self.x + self.y * self.y, r as int);
        }
        r
    }

    /// Euclidean distance to `other`, rounded down to an integer.
    pub fn distance(self, other: Point) -> (r: i64)
        requires
            point_in_range(self),
            point_in_range(other),
        ensures
            is_floor_sqrt(sdist(self, other), r as int),
            r == floor_sqrt(sdist(self, other)),
    {
        other.minus(self).norm()
    }
}

/// For a fraction in the unit interval, scaling stays between 0 and the
/// scaled quantity: `0 <= n <= d`, `0 < d`, `0 <= m` give `0 <= (n*m)/d <= m`.
pub(crate) proof fn lemma_frac_scale_bounds(n: int, d: int, m: int)
    requires
        0 <= n <= d,
        0 < d,
        0 <= m,
    ensures
        0 <= (n * m) / d <= m,
{
    vstd::arithmetic::mul::lemma_mul_nonnegative(n, m);
    vstd::arithmetic::mul::lemma_mul_inequality(n, d, m);
    vstd::arithmetic::div_mod::lemma_div_pos_is_pos(n * m, d);
    vstd::arithmetic::div_mod::lemma_div_is_ordered(n * m, d * m, d);
    vstd::arithmetic::div_mod::lemma_div_multiples_vanish(m, d);
}

/// Squared Euclidean distance between two points.
pub open spec fn sdist(p: Point, q: Point) -> int {
    (q.x - p.x) * (q.x - p.x) + (q.y - p.y) * (q.y - p.y)
}

/// An undirected segment between two points. The maze is axis-aligned, so
/// every wall segment has either equal `x` or equal `y` endpoints; probe
/// segments (movement, rays) may be arbitrary.
#[derive(PartialEq, Eq, Structural, Clone, Copy, Debug)]
pub struct Line {
    pub a: Point,
    pub b: Point,
}

/// All four coordinates of `l` are in range.
pub open spec fn line_in_range(l: Line) -> bool {
    point_in_range(l.a) && point_in_range(l.b)
}

/// Orientation class of an axis-aligned segment. Following the lattice
/// convention used throughout: equal `x` endpoints are `Horizontal`,
/// anything else `Vertical`.
#[derive(PartialEq, Eq, Structural, Clone, Copy, Debug)]
pub enum Orientation {
    Vertical,
    Horizontal,
}

/// Orientation of `l` as a spec-level value.
pub open spec fn orientation_spec(l: Line) -> Orientation {
    if l.a.x == l.b.x {
        Orientation::Horizontal
    } else {
        Orientation::Vertical
    }
}

/// The two segments have at least one endpoint in common.
pub open spec fn shares_endpoint_spec(l1: Line, l2: Line) -> bool {
    l1.a == l2.a || l1.a == l2.b || l1.b == l2.a || l1.b == l2.b
}

/// The two segments share an endpoint and their orientation classes agree:
/// they are collinear, adjacent pieces of one straight run.
pub open spec fn extends_spec(l1: Line, l2: Line) -> bool {
    shares_endpoint_spec(l1, l2) && orientation_spec(l1) == orientation_spec(l2)
}

/// `l2` lies coordinate-wise within `l1`'s bounding interval, and the two
/// have the same orientation class. Meaningful for `l1` stored with
/// `a` coordinate-wise below `b`, as compressed walls are.
pub open spec fn contains_spec(l1: Line, l2: Line) -> bool {
    orientation_spec(l1) == orientation_spec(l2)
        && l1.a.x <= l2.a.x <= l1.b.x
        && l1.a.y <= l2.a.y <= l1.b.y
        && l1.a.x <= l2.b.x <= l1.b.x
        && l1.a.y <= l2.b.y <= l1.b.y
}

/// Strict counter-clockwise orientation test for the ordered triple
/// `(a, b, c)`, by the sign of a cross product.
pub open spec fn ccw_spec(a: Point, b: Point, c: Point) -> bool {
    (c.y - a.y) * (b.x - a.x) > (b.y - a.y) * (c.x - a.x)
}

/// The two segments properly cross: each separates the other's endpoints.
pub open spec fn intersects_spec(l1: Line, l2: Line) -> bool {
    (ccw_spec(l1.a, l2.a, l2.b) != ccw_spec(l1.b, l2.a, l2.b))
        && (ccw_spec(l1.a, l1.b, l2.a) != ccw_spec(l1.a, l1.b, l2.b))
}

/// Denominator of the parametric segment-segment solution: the cross
/// product of the two direction vectors. Zero exactly for parallel
/// (or degenerate) segments.
pub open spec fn inter_denom(l1: Line, l2: Line) -> int {
    (l1.a.x - l1.b.x) * (l2.a.y - l2.b.y) - (l1.a.y - l1.b.y) * (l2.a.x - l2.b.x)
}

/// Numerator of the parameter `t` along `l1`.
pub open spec fn inter_num_t(l1: Line, l2: Line) -> int {
    (l1.a.x - l2.a.x) * (l2.a.y - l2.b.y) - (l1.a.y - l2.a.y) * (l2.a.x - l2.b.x)
}

/// Numerator of the parameter `u` along `l2`.
pub open spec fn inter_num_u(l1: Line, l2: Line) -> int {
    -((l1.a.x - l1.b.x) * (l1.a.y - l2.a.y) - (l1.a.y - l1.b.y) * (l1.a.x - l2.a.x))
}

/// `v` lies between `e1` and `e2`, whichever order they come in.
pub open spec fn betw(v: int, e1: int, e2: int) -> bool {
    (e1 <= v <= e2) || (e2 <= v <= e1)
}

/// The fraction `n / d` lies in the closed unit interval.
pub open spec fn unit_ratio(n: int, d: int) -> bool {
    if d >= 0 {
        0 <= n <= d
    } else {
        d <= n <= 0
    }
}

/// The segments are not parallel and both solved parameters lie in `[0, 1]`:
/// the supporting lines cross at a point that belongs to both segments.
pub open spec fn has_intersection(l1: Line, l2: Line) -> bool {
    inter_denom(l1, l2) != 0
        && unit_ratio(inter_num_t(l1, l2), inter_denom(l1, l2))
        && unit_ratio(inter_num_u(l1, l2), inter_denom(l1, l2))
}

/// `delta` scaled by the fraction `n / d` (`0 <= n <= d`, `0 < d`),
/// rounded toward zero.
pub open spec fn frac_scale(n: int, d: int, delta: int) -> int {
    if delta >= 0 {
        (n * delta) / d
    } else {
        -((n * (-delta)) / d)
    }
}

/// `x` coordinate of the intersection point: `l1.a.x` advanced along `l1`
/// by the parameter `t = inter_num_t / inter_denom`, rounded toward `l1.a`.
pub open spec fn inter_point_x(l1: Line, l2: Line) -> int {
    let d0 = inter_denom(l1, l2);
    let n0 = inter_num_t(l1, l2);
    let n = if d0 < 0 { -n0 } else { n0 };
    let d = if d0 < 0 { -d0 } else { d0 };
    l1.a.x + frac_scale(n, d, l1.b.x - l1.a.x)
}

/// `y` coordinate of the intersection point, rounded the same way.
pub open spec fn inter_point_y(l1: Line, l2: Line) -> int {
    let d0 = inter_denom(l1, l2);
    let n0 = inter_num_t(l1, l2);
    let n = if d0 < 0 { -n0 } else { n0 };
    let d = if d0 < 0 { -d0 } else { d0 };
    l1.a.y + frac_scale(n, d, l1.b.y - l1.a.y)
}

/// Every nonnegative integer has a floor square root.
pub proof fn lemma_floor_sqrt_exists(n: int)
    requires
        0 <= n,
    ensures
        is_floor_sqrt(n, floor_sqrt(n)),
    decreases n,
{
    if n == 0 {
        assert(is_floor_sqrt(0, 0));
    } else {
        lemma_floor_sqrt_exists(n - 1);
        let r = floor_sqrt(n - 1);
        if (r + 1) * (r + 1) <= n {
            assert(is_floor_sqrt(n, r + 1)) by (nonlinear_arith)
                requires
                    0 <= r,
                    r * r <= n - 1 < (r + 1) * (r + 1),
                    (r + 1) * (r + 1) <= n,
            ;
            assert(exists|rr: int| is_floor_sqrt(n, rr));
        } else {
            assert(is_floor_sqrt(n, r));
            assert(exists|rr: int| is_floor_sqrt(n, rr));
        }
    }
}

/// Movement clamped toward an obstruction never reaches it: for any two
/// distinct points, the clamped step from `pos` toward `q` stops strictly
/// before `q`.
pub proof fn lemma_clamp_never_reaches(pos: Point, q: Point)
    requires
        pos != q,
        point_in_range(pos),
        point_in_range(q),
    ensures
        clamped_step(pos, q) != q,
{
    let dx = q.x - pos.x;
    let dy = q.y - pos.y;
    let s = sdist(pos, q);
    assert(s > 0) by (nonlinear_arith)
        requires s == dx * dx + dy * dy && (dx != 0 || dy != 0);
    lemma_floor_sqrt_exists(s);
    let d = floor_sqrt(s);
    if d <= 1 {
    } else {
        let adx = if dx >= 0 { dx } else { -dx };
        let ady = if dy >= 0 { dy } else { -dy };
        if adx > 0 {
            assert((d - 1) * adx < d * adx) by (nonlinear_arith)
                requires d >= 2 && adx > 0;
            assert(((d - 1) * adx) / d < adx) by {
                vstd::arithmetic::div_mod::lemma_multiply_divide_lt((d - 1) * adx, d, adx);
            }
            assert(frac_scale(d - 1, d, dx) != dx);
        }
        if ady > 0 {
            assert((d - 1) * ady < d * ady) by (nonlinear_arith)
                requires d >= 2 && ady > 0;
            assert(((d - 1) * ady) / d < ady) by {
                vstd::arithmetic::div_mod::lemma_multiply_divide_lt((d - 1) * ady, d, ady);
            }
            assert(frac_scale(d - 1, d, dy) != dy);
        }
        lemma_frac_scale_bounds(d - 1, d, adx);
        lemma_frac_scale_bounds(d - 1, d, ady);
    }
}

/// Where movement from `pos` toward an obstruction at `q` stops: one world
/// unit short of `q` along the direction of travel (each coordinate rounded
/// toward `pos`), or `pos` itself when `q` is less than two units away.
pub open spec fn clamped_step(pos: Point, q: Point) -> Point {
    let dx = q.x - pos.x;
    let dy = q.y - pos.y;
    let d = floor_sqrt(sdist(pos, q));
    if d <= 1 {
        pos
    } else {
        Point {
            x: (pos.x + frac_scale(d - 1, d, dx)) as i64,
            y: (pos.y + frac_scale(d - 1, d, dy)) as i64,
        }
    }
}

/// Clamp movement from `pos` toward the obstruction point `q`: travel
/// `d - 1` of the `d` units of distance, stopping one unit short.
pub fn clamp_toward(pos: Point, q: Point) -> (r: Point)
    requires
        point_in_range(pos),
        point_in_range(q),
    ensures
        r == clamped_step(pos, q),
        betw(r.x as int, pos.x as int, q.x as int),
        betw(r.y as int, pos.y as int, q.y as int),
        point_in_range(r),
{
    let dq = q.minus(pos);
    let d = dq.norm();
    proof {
        assert(dq.x * dq.x + dq.y * dq.y == sdist(pos, q));
    }
    if d <= 1 {
        return pos;
    }
    let dxa: i128 = dq.x as i128;
    let dya: i128 = dq.y as i128;
    let dm1: i128 = (d - 1) as i128;
    let dd: i128 = d as i128;
    proof {
        assert(sdist(pos, q) <= 8_000_000_000_000_000_000) by (nonlinear_arith)
            requires
                -2_000_000_000 <= (q.x as int) - (pos.x as int) <= 2_000_000_000,
                -2_000_000_000 <= (q.y as int) - (pos.y as int) <= 2_000_000_000,
        ;
        assert(d as int * d as int <= sdist(pos, q)) by (nonlinear_arith)
            requires is_floor_sqrt(sdist(pos, q), d as int);
        assert(d <= 3_000_000_000int) by (nonlinear_arith)
            requires
                d as int * d as int <= sdist(pos, q),
                sdist(pos, q) <= 8_000_000_000_000_000_000,
                0 <= d,
        ;
        lemma_abs_mul_le(dm1 as int, dxa as int, 3_000_000_000, 2_000_000_000);
        lemma_abs_mul_le(dm1 as int, dya as int, 3_000_000_000, 2_000_000_000);
        lemma_abs_mul_le(dm1 as int, -dxa as int, 3_000_000_000, 2_000_000_000);
        lemma_abs_mul_le(dm1 as int, -dya as int, 3_000_000_000, 2_000_000_000);
        if dxa >= 0 {
            lemma_frac_scale_bounds(dm1 as int, dd as int, dxa as int);
        } else {
            lemma_frac_scale_bounds(dm1 as int, dd as int, -dxa as int);
        }
        if dya >= 0 {
            lemma_frac_scale_bounds(dm1 as int, dd as int, dya as int);
        } else {
            lemma_frac_scale_bounds(dm1 as int, dd as int, -dya as int);
        }
    }
    let qx: i128 = if dxa >= 0 { (dm1 * dxa) / dd } else { -((dm1 * (-dxa)) / dd) };
    let qy: i128 = if dya >= 0 { (dm1 * dya) / dd } else { -((dm1 * (-dya)) / dd) };
    let rx: i128 = pos.x as i128 + qx;
    let ry: i128 = pos.y as i128 + qy;
    Point { x: rx as i64, y: ry as i64 }
}

/// The intersection of `l1` and `l2` as an optional point: the value
/// `Line::intersection` returns.
pub open spec fn intersection_spec(l1: Line, l2: Line) -> Option<Point> {
    if has_intersection(l1, l2) {
        Some(Point { x: inter_point_x(l1, l2) as i64, y: inter_point_y(l1, l2) as i64 })
    } else {
        None
    }
}

impl Line {
    /// Build a segment from its two endpoints.
    pub fn new(a: Point, b: Point) -> (r: Line)
        ensures
            r.a == a,
            r.b == b,
    {
        Line { a, b }
    }

    /// Orientation class of this segment.
    pub fn orientation(&self) -> (r: Orientation)
        ensures
            r == orientation_spec(*self),
    {
        if self.a.x == self.b.x {
            Orientation::Horizontal
        } else {
            Orientation::Vertical
        }
    }

    /// Whether this segment and `other` have an endpoint in common.
    pub fn shares_endpoint(&self, other: &Line) -> (r: bool)
        ensures
            r == shares_endpoint_spec(*self, *other),
    {
        (self.a == other.a) || (self.a == other.b) || (self.b == other.a) || (self.b == other.b)
    }

    /// Whether `other` is a collinear, endpoint-adjacent continuation of
    /// this segment (a mergeable pair for the compressor). A segment that
    /// shares an endpoint but differs in orientation is a corner.
    pub fn extends(&self, other: &Line) -> (r: bool)
        ensures
            r == extends_spec(*self, *other),
    {
        self.shares_endpoint(other) && (self.orientation() == other.orientation())
    }

    /// Whether `other` lies coordinate-wise within this segment's bounding
    /// interval, with the same orientation class.
    pub fn contains(&self, other: &Line) -> (r: bool)
        ensures
            r == contains_spec(*self, *other),
    {
        (self.orientation() == other.orientation())
            && self.a.x <= other.a.x && other.a.x <= self.b.x
            && self.a.y <= other.a.y && other.a.y <= self.b.y
            && self.a.x <= other.b.x && other.b.x <= self.b.x
            && self.a.y <= other.b.y && other.b.y <= self.b.y
    }

    /// Strict orientation test for the triple `(a, b, c)`.
    pub fn ccw(a: &Point, b: &Point, c: &Point) -> (r: bool)
        requires
            point_in_range(*a),
            point_in_range(*b),
            point_in_range(*c),
        ensures
            r == ccw_spec(*a, *b, *c),
    {
        let v1: i64 = c.y - a.y;
        let v2: i64 = b.x - a.x;
        let v3: i64 = b.y - a.y;
        let v4: i64 = c.x - a.x;
        proof {
            lemma_abs_mul_le(v1 as int, v2 as int, 2_000_000_000, 2_000_000_000);
            lemma_abs_mul_le(v3 as int, v4 as int, 2_000_000_000, 2_000_000_000);
        }
        v1 * v2 > v3 * v4
    }

    /// Whether this segment and `other` properly cross (each strictly
    /// separates the other's endpoints). Touching at an endpoint or running
    /// collinearly does not count.
    pub fn intersects(&self, other: &Line) -> (r: bool)
        requires
            line_in_range(*self),
            line_in_range(*other),
        ensures
            r == intersects_spec(*self, *other),
    {
        let p1 = &self.a;
        let p2 = &self.b;
        let p3 = &other.a;
        let p4 = &other.b;
        (Line::ccw(p1, p3, p4) != Line::ccw(p2, p3, p4))
            && (Line::ccw(p1, p2, p3) != Line::ccw(p1, p2, p4))
    }

    /// Exact intersection of this segment with `other`, solved
    /// parametrically over the integers. Returns `Some` exactly when the
    /// segments are not parallel and both parameters lie in `[0, 1]`; the
    /// returned point is the crossing of the supporting lines, each
    /// coordinate rounded toward `self.a`. Parallel and degenerate pairs
    /// (`inter_denom == 0`) report `None` rather than dividing by zero.
    pub fn intersection(&self, other: &Line) -> (r: Option<Point>)
        requires
            line_in_range(*self),
            line_in_range(*other),
        ensures
            r == intersection_spec(*self, *other),
            (r is Some) == has_intersection(*self, *other),
            (match r {
                Some(p) => {
                    &&& p.x == inter_point_x(*self, *other)
                    &&& p.y == inter_point_y(*self, *other)
                    &&& betw(p.x as int, self.a.x as int, self.b.x as int)
                    &&& betw(p.y as int, self.a.y as int, self.b.y as int)
                    &&& point_in_range(p)
                },
                None => true,
            }),
    {
        let p1x: i128 = self.a.x as i128;
        let p1y: i128 = self.a.y as i128;
        let p2x: i128 = self.b.x as i128;
        let p2y: i128 = self.b.y as i128;
        let p3x: i128 = other.a.x as i128;
        let p3y: i128 = other.a.y as i128;
        let p4x: i128 = other.b.x as i128;
        let p4y: i128 = other.b.y as i128;

        let dxa: i128 = p1x - p2x;
        let dya: i128 = p1y - p2y;
        let dxb: i128 = p3x - p4x;
        let dyb: i128 = p3y - p4y;
        let exa: i128 = p1x - p3x;
        let eya: i128 = p1y - p3y;
        proof {
            lemma_abs_mul_le(dxa as int, dyb as int, 2_000_000_000, 2_000_000_000);
            lemma_abs_mul_le(dya as int, dxb as int, 2_000_000_000, 2_000_000_000);
            lemma_abs_mul_le(exa as int, dyb as int, 2_000_000_000, 2_000_000_000);
            lemma_abs_mul_le(eya as int, dxb as int, 2_000_000_000, 2_000_000_000);
            lemma_abs_mul_le(dxa as int, eya as int, 2_000_000_000, 2_000_000_000);
            lemma_abs_mul_le(dya as int, exa as int, 2_000_000_000, 2_000_000_000);
        }
        let d: i128 = dxa * dyb - dya * dxb;
        let nt: i128 = exa * dyb - eya * dxb;
        let nu: i128 = -(dxa * eya - dya * exa);
        proof {
            assert(d == inter_denom(*self, *other));
            assert(nt == inter_num_t(*self, *other));
            assert(nu == inter_num_u(*self, *other));
        }
        if d == 0 {
            return None;
        }
        let ntn: i128 = if d < 0 { -nt } else { nt };
        let nun: i128 = if d < 0 { -nu } else { nu };
        let dd: i128 = if d < 0 { -d } else { d };
        if !(0 <= ntn && ntn <= dd && 0 <= nun && nun <= dd) {
            return None;
        }

        let dx: i128 = p2x - p1x;
        let dy: i128 = p2y - p1y;
        proof {
            lemma_abs_mul_le(ntn as int, dx as int, 8_000_000_000_000_000_000, 2_000_000_000);
            lemma_abs_mul_le(ntn as int, dy as int, 8_000_000_000_000_000_000, 2_000_000_000);
            lemma_abs_mul_le(ntn as int, -dx as int, 8_000_000_000_000_000_000, 2_000_000_000);
            lemma_abs_mul_le(ntn as int, -dy as int, 8_000_000_000_000_000_000, 2_000_000_000);
            if dx >= 0 {
                lemma_frac_scale_bounds(ntn as int, dd as int, dx as int);
            } else {
                lemma_frac_scale_bounds(ntn as int, dd as int, -dx as int);
            }
            if dy >= 0 {
                lemma_frac_scale_bounds(ntn as int, dd as int, dy as int);
            } else {
                lemma_frac_scale_bounds(ntn as int, dd as int, -dy as int);
            }
        }
        let qx: i128 = if dx >= 0 { (ntn * dx) / dd } else { -((ntn * (-dx)) / dd) };
        let qy: i128 = if dy >= 0 { (ntn * dy) / dd } else { -((ntn * (-dy)) / dd) };
        let rx: i128 = p1x + qx;
        let ry: i128 = p1y + qy;
        Some(Point { x: rx as i64, y: ry as i64 })
    }
}

} // verus!
