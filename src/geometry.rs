use vstd::prelude::*;
use crate::arith::lemma_mul_bound;

verus! {

/// Largest magnitude of a coordinate: with it every product the geometry
/// forms fits in 128 bits.
pub const MAX_COORD: i64 = 524288;

pub open spec fn coord_ok(v: i64) -> bool {
    -MAX_COORD <= v <= MAX_COORD
}

/// A point of the integer grid.
#[derive(Clone, Copy, Debug, PartialEq, Eq, Structural)]
pub struct Point {
    pub x: i64,
    pub y: i64,
}

/// Squared Euclidean distance between two grid points.
pub open spec fn sq_dist(ax: int, ay: int, bx: int, by: int) -> int {
    (ax - bx) * (ax - bx) + (ay - by) * (ay - by)
}

/// Distance does not depend on the order of the two points, and a point is at
/// distance zero from itself.
pub proof fn lemma_distance_symmetric(p: Point, q: Point)
    ensures
        sq_dist(p.x as int, p.y as int, q.x as int, q.y as int) == sq_dist(
            q.x as int,
            q.y as int,
            p.x as int,
            p.y as int,
        ),
        sq_dist(p.x as int, p.y as int, p.x as int, p.y as int) == 0,
{
    assert((p.x - q.x) * (p.x - q.x) == (q.x - p.x) * (q.x - p.x)) by (nonlinear_arith);
    assert((p.y - q.y) * (p.y - q.y) == (q.y - p.y) * (q.y - p.y)) by (nonlinear_arith);
}

/// Distance is zero exactly between equal points.
pub proof fn lemma_distance_zero_iff_equal(p: Point, q: Point)
    ensures
        (sq_dist(p.x as int, p.y as int, q.x as int, q.y as int) == 0) == (p == q),
{
    let dx = p.x - q.x;
    let dy = p.y - q.y;
    assert(dx * dx >= 0 && dy * dy >= 0) by (nonlinear_arith);
    assert(dx * dx == 0 ==> dx == 0) by (nonlinear_arith);
    assert(dy * dy == 0 ==> dy == 0) by (nonlinear_arith);
    lemma_distance_symmetric(p, p);
}

impl Point {
    pub open spec fn wf(self) -> bool {
        coord_ok(self.x) && coord_ok(self.y)
    }

    /// Squared Euclidean distance to `p`.
    pub fn distance_squared(&self, p: &Point) -> (r: u64)
        requires
            self.wf(),
            p.wf(),
        ensures
            r == sq_dist(self.x as int, self.y as int, p.x as int, p.y as int),
    {
        let dx = self.x - p.x;
        let dy = self.y - p.y;
        assert(0 <= dx * dx <= 0x100_0000_0000) by (nonlinear_arith)
            requires
                -0x10_0000 <= dx <= 0x10_0000,
        ;
        assert(0 <= dy * dy <= 0x100_0000_0000) by (nonlinear_arith)
            requires
                -0x10_0000 <= dy <= 0x10_0000,
        ;
        ((dx * dx) + (dy * dy)) as u64
    }
}

/// A segment from `(x, y)` to `(x_end, y_end)`. Its first endpoint is the one
/// distances are measured from. The same shape also carries an infinite line
/// through two points (see `Ray::to_vector`).
#[derive(Clone, Copy, Debug, PartialEq, Eq, Structural)]
pub struct Vector {
    pub x: i64,
    pub y: i64,
    pub x_end: i64,
    pub y_end: i64,
}

/// A half-line starting at `start` and passing through `intersects`.
#[derive(Clone, Copy, Debug, PartialEq, Eq, Structural)]
pub struct Ray {
    pub start: Point,
    pub intersects: Point,
}

/// The point `(x / den, y / den)`, with `den` positive.
#[derive(Clone, Copy, Debug, PartialEq, Eq, Structural)]
pub struct RationalPoint {
    pub x: i128,
    pub y: i128,
    pub den: i128,
}

impl View for RationalPoint {
    type V = (int, int, int);

    open spec fn view(&self) -> (int, int, int) {
        (self.x as int, self.y as int, self.den as int)
    }
}

/// Bound on the numerators of a crossing point of two lines through grid points.
pub const MAX_NUMERATOR: i128 = 0x1000_0000_0000_0000;

/// Bound on the denominator of a crossing point of two lines through grid points.
pub const MAX_DENOMINATOR: i128 = 0x200_0000_0000;

impl RationalPoint {
    pub open spec fn wf(self) -> bool {
        0 < self.den <= MAX_DENOMINATOR && -MAX_NUMERATOR <= self.x <= MAX_NUMERATOR
            && -MAX_NUMERATOR <= self.y <= MAX_NUMERATOR
    }
}

pub open spec fn low(a: int, b: int) -> int {
    if a <= b { a } else { b }
}

pub open spec fn high(a: int, b: int) -> int {
    if a <= b { b } else { a }
}

/// Cross product of the direction vectors of two lines.
pub open spec fn det_spec(v1: Vector, v2: Vector) -> int {
    (v1.x - v1.x_end) * (v2.y - v2.y_end) - (v1.y - v1.y_end) * (v2.x - v2.x_end)
}

/// Cross product of the two endpoints of a line.
pub open spec fn cross_of(v: Vector) -> int {
    v.x * v.y_end - v.y * v.x_end
}

pub open spec fn num_x(v1: Vector, v2: Vector) -> int {
    cross_of(v1) * (v2.x - v2.x_end) - (v1.x - v1.x_end) * cross_of(v2)
}

pub open spec fn num_y(v1: Vector, v2: Vector) -> int {
    cross_of(v1) * (v2.y - v2.y_end) - (v1.y - v1.y_end) * cross_of(v2)
}

/// The crossing point of the infinite lines through two vectors, as
/// `(x, y, den)` with `den > 0`; none when their directions are parallel.
pub open spec fn line_intersection(v1: Vector, v2: Vector) -> Option<(int, int, int)> {
    let d = det_spec(v1, v2);
    if d == 0 {
        None
    } else if d > 0 {
        Some((num_x(v1, v2), num_y(v1, v2), d))
    } else {
        Some((-num_x(v1, v2), -num_y(v1, v2), -d))
    }
}

/// The rational point `p` lies on the infinite line through `v`.
pub open spec fn on_line(v: Vector, p: (int, int, int)) -> bool {
    (v.x_end - v.x) * (p.1 - v.y * p.2) - (v.y_end - v.y) * (p.0 - v.x * p.2) == 0
}

/// The rational point `p` lies in the axis-aligned box spanned by `v`'s endpoints.
pub open spec fn in_box(v: Vector, p: (int, int, int)) -> bool {
    &&& low(v.x as int, v.x_end as int) * p.2 <= p.0 <= high(v.x as int, v.x_end as int) * p.2
    &&& low(v.y as int, v.y_end as int) * p.2 <= p.1 <= high(v.y as int, v.y_end as int) * p.2
}

/// On each axis, `p` lies beyond the ray's start exactly when the ray's
/// second point does.
pub open spec fn forward(ray: Ray, p: (int, int, int)) -> bool {
    &&& (p.0 > ray.start.x * p.2) == (ray.intersects.x > ray.start.x)
    &&& (p.1 > ray.start.y * p.2) == (ray.intersects.y > ray.start.y)
}

/// The line through the ray's two points, as a vector.
pub open spec fn ray_line(ray: Ray) -> Vector {
    Vector {
        x: ray.start.x,
        y: ray.start.y,
        x_end: ray.intersects.x,
        y_end: ray.intersects.y,
    }
}

/// The segment is hit by the ray: the lines cross, and the crossing point is
/// in the segment's box and on the ray's forward side.
pub open spec fn hits(seg: Vector, ray: Ray) -> bool {
    match line_intersection(seg, ray_line(ray)) {
        Some(p) => in_box(seg, p) && forward(ray, p),
        None => false,
    }
}

/// Offsetting a crossing numerator by an endpoint factors through the direction.
proof fn lemma_offset_factor(c1: int, c2: int, u: int, v: int, s: int, t: int, a: int, w: int)
    by (nonlinear_arith)
    requires
        c1 + a * v == w,
    ensures
        (c1 * s - u * c2) - a * (u * t - v * s) == s * w - u * (c2 + a * t),
{
}

proof fn lemma_offset_factor_y(c1: int, c2: int, u: int, v: int, s: int, t: int, b: int, w: int)
    by (nonlinear_arith)
    requires
        c1 - b * u == w,
    ensures
        (c1 * t - v * c2) - b * (u * t - v * s) == t * w - v * (c2 - b * s),
{
}

proof fn lemma_factor_step(c1: int, a: int, b: int, c: int, d: int)
    by (nonlinear_arith)
    requires
        c1 == a * d - b * c,
    ensures
        c1 + a * (b - d) == b * (a - c),
        c1 - b * (a - c) == -a * (b - d),
{
}

/// A point whose offsets from an endpoint are `k` times the direction lies on the line.
proof fn lemma_on_line_by_factor(v: Vector, p: (int, int, int), k: int)
    by (nonlinear_arith)
    requires
        p.0 - v.x * p.2 == (v.x - v.x_end) * k,
        p.1 - v.y * p.2 == (v.y - v.y_end) * k,
    ensures
        on_line(v, p),
{
}

proof fn lemma_crossing_identity(v1: Vector, v2: Vector)
    ensures
        on_line(v1, (num_x(v1, v2), num_y(v1, v2), det_spec(v1, v2))),
        on_line(v2, (num_x(v1, v2), num_y(v1, v2), det_spec(v1, v2))),
{
    let (a, b, c, d) = (v1.x as int, v1.y as int, v1.x_end as int, v1.y_end as int);
    let (e, f, g, h) = (v2.x as int, v2.y as int, v2.x_end as int, v2.y_end as int);
    let (u, v, s, t) = (a - c, b - d, e - g, f - h);
    let c1 = cross_of(v1);
    let c2 = cross_of(v2);
    let den = det_spec(v1, v2);
    let px = num_x(v1, v2);
    let py = num_y(v1, v2);
    assert(den == u * t - v * s);
    assert(px == c1 * s - u * c2);
    assert(py == c1 * t - v * c2);
    lemma_factor_step(c1, a, b, c, d);
    lemma_factor_step(c2, e, f, g, h);
    // first line: offsets from (a, b)
    let k1 = b * s - c2 - a * t;
    lemma_offset_factor(c1, c2, u, v, s, t, a, b * u);
    assert(px - a * den == u * k1) by (nonlinear_arith)
        requires
            px - a * den == s * (b * u) - u * (c2 + a * t),
            k1 == b * s - c2 - a * t,
    ;
    lemma_offset_factor_y(c1, c2, u, v, s, t, b, -a * v);
    assert(py - b * den == v * k1) by (nonlinear_arith)
        requires
            py - b * den == t * (-a * v) - v * (c2 - b * s),
            den == u * t - v * s,
            k1 == b * s - c2 - a * t,
    ;
    lemma_on_line_by_factor(v1, (px, py, den), k1);
    // second line: offsets from (e, f)
    let k2 = c1 + e * v - f * u;
    assert(px - e * den == s * k2) by (nonlinear_arith)
        requires
            px == c1 * s - u * c2,
            den == u * t - v * s,
            c2 + e * t == f * s,
            k2 == c1 + e * v - f * u,
    ;
    assert(py - f * den == t * k2) by (nonlinear_arith)
        requires
            py == c1 * t - v * c2,
            den == u * t - v * s,
            c2 - f * (e - g) == -e * t,
            s == e - g,
            k2 == c1 + e * v - f * u,
    ;
    lemma_on_line_by_factor(v2, (px, py, den), k2);
}

/// Where two lines are not parallel, their crossing point lies on both of them.
pub proof fn lemma_intersection_on_lines(v1: Vector, v2: Vector)
    requires
        det_spec(v1, v2) != 0,
    ensures
        line_intersection(v1, v2) is Some,
        on_line(v1, line_intersection(v1, v2).unwrap()),
        on_line(v2, line_intersection(v1, v2).unwrap()),
{
    lemma_crossing_identity(v1, v2);
    let p = line_intersection(v1, v2).unwrap();
    let q = (num_x(v1, v2), num_y(v1, v2), det_spec(v1, v2));
    assert(on_line(v1, q));
    assert(on_line(v2, q));
    if det_spec(v1, v2) < 0 {
        assert(on_line(v1, p)) by (nonlinear_arith)
            requires
                on_line(v1, q),
                p == (-q.0, -q.1, -q.2),
        ;
        assert(on_line(v2, p)) by (nonlinear_arith)
            requires
                on_line(v2, q),
                p == (-q.0, -q.1, -q.2),
        ;
    }
}

/// Bounds on the crossing point of two lines through grid points.
pub proof fn lemma_intersection_bounds(v1: Vector, v2: Vector)
    requires
        v1.wf(),
        v2.wf(),
    ensures
        -0x200_0000_0000 <= det_spec(v1, v2) <= 0x200_0000_0000,
        -0x80_0000_0000 <= cross_of(v1) <= 0x80_0000_0000,
        -0x80_0000_0000 <= cross_of(v2) <= 0x80_0000_0000,
        -0x1000_0000_0000_0000 <= num_x(v1, v2) <= 0x1000_0000_0000_0000,
        -0x1000_0000_0000_0000 <= num_y(v1, v2) <= 0x1000_0000_0000_0000,
{
    let b: int = 0x8_0000;
    let b2: int = 0x10_0000;
    lemma_mul_bound(v1.x - v1.x_end, v2.y - v2.y_end, b2, b2);
    lemma_mul_bound(v1.y - v1.y_end, v2.x - v2.x_end, b2, b2);
    lemma_mul_bound(v1.x as int, v1.y_end as int, b, b);
    lemma_mul_bound(v1.y as int, v1.x_end as int, b, b);
    lemma_mul_bound(v2.x as int, v2.y_end as int, b, b);
    lemma_mul_bound(v2.y as int, v2.x_end as int, b, b);
    lemma_mul_bound(cross_of(v1), v2.x - v2.x_end, 0x80_0000_0000, b2);
    lemma_mul_bound(cross_of(v1), v2.y - v2.y_end, 0x80_0000_0000, b2);
    lemma_mul_bound(v1.x - v1.x_end, cross_of(v2), b2, 0x80_0000_0000);
    lemma_mul_bound(v1.y - v1.y_end, cross_of(v2), b2, 0x80_0000_0000);
}

/// Cross product of the direction vectors of two lines.
pub fn det(v1: &Vector, v2: &Vector) -> (r: i128)
    requires
        v1.wf(),
        v2.wf(),
    ensures
        r == det_spec(*v1, *v2),
{
    proof {
        lemma_intersection_bounds(*v1, *v2);
    }
    let a = v1.x as i128 - v1.x_end as i128;
    let b = v2.y as i128 - v2.y_end as i128;
    let c = v1.y as i128 - v1.y_end as i128;
    let d = v2.x as i128 - v2.x_end as i128;
    proof {
        lemma_mul_bound(a as int, b as int, 0x10_0000, 0x10_0000);
        lemma_mul_bound(c as int, d as int, 0x10_0000, 0x10_0000);
    }
    a * b - c * d
}

fn cross(v: &Vector) -> (r: i128)
    requires
        v.wf(),
    ensures
        r == cross_of(*v),
{
    proof {
        lemma_mul_bound(v.x as int, v.y_end as int, 0x8_0000, 0x8_0000);
        lemma_mul_bound(v.y as int, v.x_end as int, 0x8_0000, 0x8_0000);
    }
    v.x as i128 * v.y_end as i128 - v.y as i128 * v.x_end as i128
}

impl Vector {
    pub open spec fn wf(self) -> bool {
        coord_ok(self.x) && coord_ok(self.y) && coord_ok(self.x_end) && coord_ok(self.y_end)
    }

    pub fn get_start(&self) -> (r: Point)
        ensures
            r == (Point { x: self.x, y: self.y }),
    {
        Point { x: self.x, y: self.y }
    }

    pub fn get_end(&self) -> (r: Point)
        ensures
            r == (Point { x: self.x_end, y: self.y_end }),
    {
        Point { x: self.x_end, y: self.y_end }
    }

    /// Whether `p` lies in the axis-aligned box spanned by the endpoints,
    /// boundary included.
    pub fn has_point(&self, p: &RationalPoint) -> (r: bool)
        requires
            self.wf(),
            p.wf(),
        ensures
            r == in_box(*self, p@),
    {
        let (xl, xh) = if self.x <= self.x_end { (self.x, self.x_end) } else { (self.x_end, self.x) };
        let (yl, yh) = if self.y <= self.y_end { (self.y, self.y_end) } else { (self.y_end, self.y) };
        proof {
            lemma_mul_bound(xl as int, p.den as int, 0x8_0000, MAX_DENOMINATOR as int);
            lemma_mul_bound(xh as int, p.den as int, 0x8_0000, MAX_DENOMINATOR as int);
            lemma_mul_bound(yl as int, p.den as int, 0x8_0000, MAX_DENOMINATOR as int);
            lemma_mul_bound(yh as int, p.den as int, 0x8_0000, MAX_DENOMINATOR as int);
        }
        xl as i128 * p.den <= p.x && p.x <= xh as i128 * p.den && yl as i128 * p.den <= p.y && p.y
            <= yh as i128 * p.den
    }

    /// The crossing point of this vector's line with the ray's line; none
    /// when the two are parallel (collinear lines included). On grid points
    /// the determinant is an exact integer, so "parallel" means exactly zero.
    pub fn get_intersection(&self, ray: &Ray) -> (r: Option<RationalPoint>)
        requires
            self.wf(),
            ray.wf(),
        ensures
            r is None <==> det_spec(*self, ray_line(*ray)) == 0,
            match r {
                Some(p) => p.wf() && line_intersection(*self, ray_line(*ray)) == Some(p@),
                None => line_intersection(*self, ray_line(*ray)) is None,
            },
    {
        let line = ray.to_vector();
        let zn = det(self, &line);
        if zn == 0 {
            return None;
        }
        proof {
            lemma_intersection_bounds(*self, line);
        }
        let c1 = cross(self);
        let c2 = cross(&line);
        let dx1 = self.x as i128 - self.x_end as i128;
        let dy1 = self.y as i128 - self.y_end as i128;
        let dx2 = line.x as i128 - line.x_end as i128;
        let dy2 = line.y as i128 - line.y_end as i128;
        proof {
            lemma_mul_bound(c1 as int, dx2 as int, 0x80_0000_0000, 0x10_0000);
            lemma_mul_bound(c1 as int, dy2 as int, 0x80_0000_0000, 0x10_0000);
            lemma_mul_bound(dx1 as int, c2 as int, 0x10_0000, 0x80_0000_0000);
            lemma_mul_bound(dy1 as int, c2 as int, 0x10_0000, 0x80_0000_0000);
        }
        let x = c1 * dx2 - dx1 * c2;
        let y = c1 * dy2 - dy1 * c2;
        if zn > 0 {
            Some(RationalPoint { x, y, den: zn })
        } else {
            Some(RationalPoint { x: -x, y: -y, den: -zn })
        }
    }

    /// Whether the ray hits this segment: the lines cross at a point inside
    /// the segment's box and on the ray's forward side.
    pub fn intersects(&self, ray: &Ray) -> (r: bool)
        requires
            self.wf(),
            ray.wf(),
        ensures
            r == hits(*self, *ray),
    {
        match self.get_intersection(ray) {
            Some(p) => self.has_point(&p) && ray.has_point(&p),
            None => false,
        }
    }
}

impl Ray {
    pub open spec fn wf(self) -> bool {
        self.start.wf() && self.intersects.wf()
    }

    pub fn new(start: Point, intersects: Point) -> (r: Ray)
        ensures
            r == (Ray { start, intersects }),
    {
        Ray { start, intersects }
    }

    /// Whether `p` lies on the ray's forward side, axis by axis. Points off
    /// the ray's line may pass: the test is meant for points already on it.
    pub fn has_point(&self, p: &RationalPoint) -> (r: bool)
        requires
            self.wf(),
            p.wf(),
        ensures
            r == forward(*self, p@),
    {
        proof {
            lemma_mul_bound(self.start.x as int, p.den as int, 0x8_0000, MAX_DENOMINATOR as int);
            lemma_mul_bound(self.start.y as int, p.den as int, 0x8_0000, MAX_DENOMINATOR as int);
        }
        (p.x > self.start.x as i128 * p.den) == (self.intersects.x > self.start.x) && (p.y
            > self.start.y as i128 * p.den) == (self.intersects.y > self.start.y)
    }

    /// The line through the ray's two points.
    pub fn to_vector(&self) -> (r: Vector)
        ensures
            r == ray_line(*self),
            self.wf() ==> r.wf(),
    {
        Vector {
            x: self.start.x,
            y: self.start.y,
            x_end: self.intersects.x,
            y_end: self.intersects.y,
        }
    }
}

} // verus!
