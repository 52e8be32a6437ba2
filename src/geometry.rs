use vstd::prelude::*;
use crate::vector::{Vector, lemma_floor_sqrt_unique, LIMIT, clamp, clamp3, dot_of, in_range, is_floor_sqrt, floor_sqrt, floor_div};

verus! {

/// A half-line from `origin` along `direction`.
#[derive(Clone, Copy, Debug)]
pub struct Ray {
    pub origin: Vector,
    pub direction: Vector,
}

/// `o + d * num / den` on each coordinate, rounded down and saturated.
pub open spec fn point_at(o: (int, int, int), d: (int, int, int), num: int, den: int) -> (int, int, int) {
    clamp3((o.0 + d.0 * num / den, o.1 + d.1 * num / den, o.2 + d.2 * num / den))
}

/// Bound on the numerators handed to `Ray::point_at_ratio`.
pub open spec fn num_in_range(num: int) -> bool {
    -0x1_0000_0000_0000_0000 <= num <= 0x1_0000_0000_0000_0000
}

proof fn lemma_offset_bound(d: int, num: int)
    requires
        in_range(d),
        num_in_range(num),
    ensures
        -0x4000_0000 * 0x1_0000_0000_0000_0000 <= d * num <= 0x4000_0000 * 0x1_0000_0000_0000_0000,
{
    assert(-0x4000_0000 * 0x1_0000_0000_0000_0000 <= d * num <= 0x4000_0000 * 0x1_0000_0000_0000_0000)
        by (nonlinear_arith)
        requires
            -0x4000_0000 <= d <= 0x4000_0000,
            -0x1_0000_0000_0000_0000 <= num <= 0x1_0000_0000_0000_0000,
    {
    }
}

proof fn lemma_div_shrinks(v: int, den: int)
    requires
        den > 0,
        -0x4000_0000 * 0x1_0000_0000_0000_0000 <= v <= 0x4000_0000 * 0x1_0000_0000_0000_0000,
    ensures
        -0x4000_0000 * 0x1_0000_0000_0000_0000 <= v / den <= 0x4000_0000 * 0x1_0000_0000_0000_0000,
{
    assert(-0x4000_0000 * 0x1_0000_0000_0000_0000 <= v / den <= 0x4000_0000 * 0x1_0000_0000_0000_0000)
        by (nonlinear_arith)
        requires
            den > 0,
            -0x4000_0000 * 0x1_0000_0000_0000_0000 <= v <= 0x4000_0000 * 0x1_0000_0000_0000_0000,
    {
        let q = v / den;
        let r = v % den;
        assert(v == den * q + r && 0 <= r < den);
    }
}

impl Ray {
    pub open spec fn wf(&self) -> bool {
        self.origin.wf() && self.direction.wf()
    }

    pub fn new(origin: Vector, direction: Vector) -> (r: Ray)
        ensures
            r.origin == origin,
            r.direction == direction,
    {
        Ray { origin, direction }
    }

    /// The point `origin + direction * num / den`.
    pub fn point_at_ratio(&self, num: i128, den: i128) -> (r: Vector)
        requires
            self.wf(),
            den > 0,
            num_in_range(num as int),
        ensures
            r.wf(),
            r.coords() == point_at(self.origin.coords(), self.direction.coords(), num as int, den as int),
    {
        proof {
            lemma_offset_bound(self.direction.x as int, num as int);
            lemma_offset_bound(self.direction.y as int, num as int);
            lemma_offset_bound(self.direction.z as int, num as int);
            lemma_div_shrinks(self.direction.x * num, den as int);
            lemma_div_shrinks(self.direction.y * num, den as int);
            lemma_div_shrinks(self.direction.z * num, den as int);
        }
        let x = self.origin.x as i128 + floor_div(self.direction.x as i128 * num, den);
        let y = self.origin.y as i128 + floor_div(self.direction.y as i128 * num, den);
        let z = self.origin.z as i128 + floor_div(self.direction.z as i128 * num, den);
        Vector::new_wide(x, y, z)
    }

    /// The point `origin + direction * distance` (each coordinate saturated).
    pub fn shine_to(&self, distance: i64) -> (r: Vector)
        requires
            self.wf(),
        ensures
            r.wf(),
            r.coords() == point_at(self.origin.coords(), self.direction.coords(), distance as int, 1),
    {
        self.point_at_ratio(distance as i128, 1)
    }
}

/// The integer square root of `n`, rounded down (for `n >= 0`).
pub open spec fn isqrt(n: int) -> int {
    choose|r: int| is_floor_sqrt(r, n)
}


/// Every non-negative integer has a rounded-down square root.
pub proof fn lemma_floor_sqrt_exists(n: int)
    requires
        n >= 0,
    ensures
        is_floor_sqrt(isqrt(n), n),
    decreases n,
{
    if n == 0 {
        assert(is_floor_sqrt(0, 0));
    } else {
        lemma_floor_sqrt_exists(n - 1);
        let r = isqrt(n - 1);
        if (r + 1) * (r + 1) <= n {
            assert(n < (r + 2) * (r + 2)) by (nonlinear_arith)
                requires n - 1 < (r + 1) * (r + 1), r >= 0;
            assert(is_floor_sqrt(r + 1, n));
        } else {
            assert(is_floor_sqrt(r, n));
        }
    }
}

/// With `disc = a * r^2`, `0 < r^2 < a`, the rounded-down root lies in `(0, a)`.
proof fn lemma_root_below(a: int, rr: int)
    requires
        0 < rr < a,
    ensures
        0 <= isqrt(a * rr) < a,
        a * rr > 0,
{
    assert(a * rr > 0) by (nonlinear_arith)
        requires 0 < rr < a;
    lemma_floor_sqrt_exists(a * rr);
    let q = isqrt(a * rr);
    assert(q < a) by (nonlinear_arith)
        requires q * q <= a * rr, 0 < rr < a, q >= 0;
}

/// A ray from outside a sphere aimed at its centre meets it twice, and the
/// two hit parameters are symmetric about the point of closest approach.
pub proof fn lemma_aimed_at_centre(s: Sphere, o: (int, int, int), d: (int, int, int))
    requires
        s.wf(),
        s.radius > 0,
        d == (s.position.x - o.0, s.position.y - o.1, s.position.z - o.2),
        in_range(d.0),
        in_range(d.1),
        in_range(d.2),
        dot_of(d, d) > s.radius * s.radius,
    ensures
        hit_nums(s, o, d).len() == 2,
        hit_nums(s, o, d)[0] + hit_nums(s, o, d)[1] == -2 * quadratic(s, o, d).1,
        0 <= hit_nums(s, o, d)[0] <= hit_nums(s, o, d)[1],
{
    let a = dot_of(d, d);
    let rr = s.radius * s.radius;
    let oc = diff(o, s.position.coords());
    assert(oc == (-d.0, -d.1, -d.2));
    let (qa, qb, qc) = quadratic(s, o, d);
    assert(qa == a);
    assert(qb == -a) by (nonlinear_arith)
        requires qb == d.0 * (-d.0) + d.1 * (-d.1) + d.2 * (-d.2), a == d.0 * d.0 + d.1 * d.1 + d.2 * d.2;
    assert(qc == a - rr) by (nonlinear_arith)
        requires qc == (-d.0) * (-d.0) + (-d.1) * (-d.1) + (-d.2) * (-d.2) - rr, a == d.0 * d.0 + d.1 * d.1 + d.2 * d.2;
    assert(qb * qb - qa * qc == a * rr) by (nonlinear_arith)
        requires qb == -a, qa == a, qc == a - rr;
    assert(s.radius * s.radius > 0) by (nonlinear_arith)
        requires s.radius > 0;
    lemma_root_below(a, rr);
}

/// A ray with a non-zero direction (`a > 0`) from outside a sphere (`c > 0`)
/// that points toward it (`b < 0`)
/// and whose line crosses it (`disc > 0`) meets it twice, ahead of its
/// origin, and the two hit parameters are symmetric about the point of
/// closest approach, `-b / a`.
pub proof fn lemma_enters_from_outside(s: Sphere, o: (int, int, int), d: (int, int, int))
    requires
        ({
            let (a, b, c) = quadratic(s, o, d);
            &&& a > 0
            &&& c > 0
            &&& b < 0
        }),
        discriminant(s, o, d) > 0,
    ensures
        hit_nums(s, o, d).len() == 2,
        hit_nums(s, o, d)[0] + hit_nums(s, o, d)[1] == -2 * quadratic(s, o, d).1,
        hit_nums(s, o, d)[0] <= hit_nums(s, o, d)[1],
{
    let (a, b, c) = quadratic(s, o, d);
    lemma_floor_sqrt_exists(b * b - a * c);
}

/// A ray from outside a sphere that points away from its centre
/// (`d . (o - centre) > 0`) meets nothing, unless its line is exactly tangent.
pub proof fn lemma_aimed_away(s: Sphere, o: (int, int, int), d: (int, int, int))
    requires
        ({
            let oc = diff(o, s.position.coords());
            &&& dot_of(oc, oc) > s.radius * s.radius
            &&& dot_of(d, oc) > 0
        }),
        discriminant(s, o, d) != 0,
    ensures
        hit_nums(s, o, d).len() == 0,
{
}

/// A ray starting strictly inside a sphere leaves it once, ahead of its origin.
pub proof fn lemma_origin_inside(s: Sphere, o: (int, int, int), d: (int, int, int))
    requires
        ({
            let oc = diff(o, s.position.coords());
            dot_of(oc, oc) < s.radius * s.radius
        }),
        dot_of(d, d) > 0,
    ensures
        hit_nums(s, o, d).len() == 1,
        hit_nums(s, o, d)[0] >= 0,
{
    let (a, b, c) = quadratic(s, o, d);
    assert(b * b - a * c > 0) by (nonlinear_arith)
        requires a > 0, c < 0;
    lemma_floor_sqrt_exists(b * b - a * c);
    let q = isqrt(b * b - a * c);
    if b > 0 {
        assert(a * c < 0) by (nonlinear_arith)
            requires a > 0, c < 0;
        assert(q >= b) by (nonlinear_arith)
            requires
                b * b - a * c < (q + 1) * (q + 1),
                b * b - a * c > b * b,
                q >= 0,
                b > 0,
        {
            if q < b {
                assert((q + 1) * (q + 1) <= b * b);
            }
        }
    }
}

/// A ray whose line passes the centre at exactly the radius (the squared
/// distance `|oc|^2 - (d.oc)^2 / |d|^2` equals `r^2`) touches the sphere once.
pub proof fn lemma_tangent(s: Sphere, o: (int, int, int), d: (int, int, int))
    requires
        s.wf(),
        dot_of(d, d) > 0,
        ({
            let oc = diff(o, s.position.coords());
            dot_of(oc, oc) * dot_of(d, d) - dot_of(d, oc) * dot_of(d, oc)
                == s.radius * s.radius * dot_of(d, d)
        }),
    ensures
        hit_nums(s, o, d).len() == 1,
{
    let oc = diff(o, s.position.coords());
    let (qa, qb, qc) = quadratic(s, o, d);
    let rr = s.radius * s.radius;
    assert(qb * qb - qa * qc == 0) by (nonlinear_arith)
        requires
            qa == dot_of(d, d),
            qb == dot_of(d, oc),
            qc == dot_of(oc, oc) - rr,
            dot_of(oc, oc) * dot_of(d, d) - dot_of(d, oc) * dot_of(d, oc) == rr * dot_of(d, d);
}

/// A sphere given by its centre and radius.
#[derive(Clone, Copy, Debug)]
pub struct Sphere {
    pub position: Vector,
    pub radius: i64,
}

/// `a - b` on each coordinate, saturated.
pub open spec fn diff(a: (int, int, int), b: (int, int, int)) -> (int, int, int) {
    clamp3((a.0 - b.0, a.1 - b.1, a.2 - b.2))
}

/// The quadratic `a t^2 + 2 b t + c` whose roots are where the ray meets the sphere.
pub open spec fn quadratic(s: Sphere, o: (int, int, int), d: (int, int, int)) -> (int, int, int) {
    let oc = diff(o, s.position.coords());
    (dot_of(d, d), dot_of(d, oc), dot_of(oc, oc) - s.radius * s.radius)
}

/// `b^2 - a c`: its sign gives the number of crossings.
pub open spec fn discriminant(s: Sphere, o: (int, int, int), d: (int, int, int)) -> int {
    let (a, b, c) = quadratic(s, o, d);
    b * b - a * c
}

/// Numerators, over `a`, of the ray parameters of the hits, nearest first:
/// none, the tangent point, or those of `-b + sqrt(disc)`, `-b - sqrt(disc)`
/// that are not behind the origin. Which roots lie behind the origin is
/// decided exactly from the signs of `b` and `c`; the rounded-down root only
/// places the points.
pub open spec fn hit_nums(s: Sphere, o: (int, int, int), d: (int, int, int)) -> Seq<int> {
    let (a, b, c) = quadratic(s, o, d);
    let disc = b * b - a * c;
    if a == 0 || disc < 0 {
        seq![]
    } else if disc == 0 {
        seq![-b]
    } else {
        let far = -b + isqrt(disc);
        let near = -b - isqrt(disc);
        if b <= 0 && c >= 0 {
            seq![near, far]
        } else if b <= 0 || c <= 0 {
            seq![far]
        } else {
            seq![]
        }
    }
}

/// The world points where the ray meets the sphere, nearest first.
pub open spec fn hits(s: Sphere, o: (int, int, int), d: (int, int, int)) -> Seq<(int, int, int)> {
    let a = quadratic(s, o, d).0;
    hit_nums(s, o, d).map_values(|num: int| point_at(o, d, num, a))
}

proof fn lemma_quadratic_bounds(s: Sphere, o: (int, int, int), d: (int, int, int))
    requires
        s.wf(),
        in_range(d.0),
        in_range(d.1),
        in_range(d.2),
    ensures
        ({
            let (a, b, c) = quadratic(s, o, d);
            &&& 0 <= a <= 3 * LIMIT * LIMIT
            &&& -3 * LIMIT * LIMIT <= b <= 3 * LIMIT * LIMIT
            &&& -LIMIT * LIMIT <= c <= 3 * LIMIT * LIMIT
            &&& 0 <= b * b <= 9 * LIMIT * LIMIT * LIMIT * LIMIT
            &&& -3 * LIMIT * LIMIT * LIMIT * LIMIT <= a * c <= 9 * LIMIT * LIMIT * LIMIT * LIMIT
        }),
{
    let oc = diff(o, s.position.coords());
    let (a, b, c) = quadratic(s, o, d);
    let l = LIMIT as int;
    assert(-3 * l * l <= dot_of(d, oc) <= 3 * l * l) by (nonlinear_arith)
        requires
            -l <= d.0 <= l, -l <= d.1 <= l, -l <= d.2 <= l,
            -l <= oc.0 <= l, -l <= oc.1 <= l, -l <= oc.2 <= l,
            l > 0;
    assert(0 <= dot_of(d, d) <= 3 * l * l) by (nonlinear_arith)
        requires -l <= d.0 <= l, -l <= d.1 <= l, -l <= d.2 <= l, l > 0;
    assert(0 <= dot_of(oc, oc) <= 3 * l * l) by (nonlinear_arith)
        requires -l <= oc.0 <= l, -l <= oc.1 <= l, -l <= oc.2 <= l, l > 0;
    let r = s.radius as int;
    assert(0 <= r * r <= l * l) by (nonlinear_arith)
        requires -l <= r <= l;
    assert(0 <= b * b <= 9 * l * l * l * l) by (nonlinear_arith)
        requires -3 * l * l <= b <= 3 * l * l;
    assert(-3 * l * l * l * l <= a * c <= 9 * l * l * l * l) by (nonlinear_arith)
        requires 0 <= a <= 3 * l * l, -l * l <= c <= 3 * l * l;
}

impl Sphere {
    pub open spec fn wf(&self) -> bool {
        self.position.wf() && -LIMIT <= self.radius <= LIMIT
    }

    /// A sphere with the given centre and radius; only the radius's square
    /// enters the hit test.
    pub fn new(position: Vector, radius: i64) -> (r: Sphere)
        requires
            -LIMIT <= radius <= LIMIT,
        ensures
            r.position == position,
            r.radius == radius,
    {
        Sphere { position, radius }
    }

    /// The points where `ray` meets the sphere, nearest first; a ray with a
    /// zero direction meets nothing.
    pub fn collides_with(&self, ray: &Ray) -> (r: Vec<Vector>)
        requires
            self.wf(),
            ray.wf(),
        ensures
            r@.len() == hits(*self, ray.origin.coords(), ray.direction.coords()).len(),
            forall|i: int| 0 <= i < r@.len() ==> (#[trigger] r@[i]).wf() && r@[i].coords() == hits(*self, ray.origin.coords(), ray.direction.coords())[i],
    {
        proof {
            lemma_quadratic_bounds(*self, ray.origin.coords(), ray.direction.coords());
        }
        let mut oc = ray.origin;
        oc.minus(&self.position);
        let a = ray.direction.dot(&ray.direction) as i128;
        let b = ray.direction.dot(&oc) as i128;
        let c = oc.dot(&oc) as i128 - (self.radius as i128) * (self.radius as i128);
        let disc: i128 = b * b - a * c;
                        let mut out: Vec<Vector> = Vec::new();
        if a == 0 || disc < 0 {
        } else if disc == 0 {
            out.push(ray.point_at_ratio(-b, a));
        } else {
            let root = floor_sqrt(disc as u128) as i128;
            proof {
                lemma_floor_sqrt_unique(root as int, isqrt(disc as int), disc as int);
            }
            let far = -b + root;
            let near = -b - root;
            if b <= 0 && c >= 0 {
                out.push(ray.point_at_ratio(near, a));
                out.push(ray.point_at_ratio(far, a));
            } else if b <= 0 || c <= 0 {
                out.push(ray.point_at_ratio(far, a));
            }
        }
        out
    }
}

} // verus!
