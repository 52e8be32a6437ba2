use vstd::prelude::*;

verus! {

/// Number of fixed-point steps in one scene unit.
pub const UNIT: i64 = 1000;

/// Largest absolute value a coordinate may hold; results beyond it saturate.
pub const LIMIT: i64 = 1073741824;

/// `v` pulled into `[-LIMIT, LIMIT]`.
pub open spec fn clamp(v: int) -> int {
    if v < -LIMIT {
        -LIMIT as int
    } else if v > LIMIT {
        LIMIT as int
    } else {
        v
    }
}

pub open spec fn in_range(v: int) -> bool {
    -LIMIT <= v <= LIMIT
}

/// `r` is the integer square root of `n`, rounded down.
pub open spec fn is_floor_sqrt(r: int, n: int) -> bool {
    0 <= r && r * r <= n && n < (r + 1) * (r + 1)
}

/// The rounded-down square root is unique.
pub proof fn lemma_floor_sqrt_unique(r1: int, r2: int, n: int)
    requires
        is_floor_sqrt(r1, n),
        is_floor_sqrt(r2, n),
    ensures
        r1 == r2,
{
    if r1 < r2 {
        assert((r1 + 1) * (r1 + 1) <= r2 * r2) by (nonlinear_arith)
            requires 0 <= r1 < r2;
    } else if r2 < r1 {
        assert((r2 + 1) * (r2 + 1) <= r1 * r1) by (nonlinear_arith)
            requires 0 <= r2 < r1;
    }
}

/// Integer square root, rounded down.
pub fn floor_sqrt(n: u128) -> (r: u128)
    requires
        n < 0x4000_0000_0000_0000_0000_0000_0000_0000u128,
    ensures
        is_floor_sqrt(r as int, n as int),
        r <= 0x8000_0000_0000_0000u128,
{
    let mut lo: u128 = 0;
    let mut hi: u128 = 0x8000_0000_0000_0000u128;
    proof {
        assert(hi * hi == 0x4000_0000_0000_0000_0000_0000_0000_0000u128) by (nonlinear_arith)
            requires hi == 0x8000_0000_0000_0000u128;
    }
    while hi - lo > 1
        invariant
            lo < hi <= 0x8000_0000_0000_0000u128,
            lo * lo <= n,
            n < hi * hi,
        decreases hi - lo,
    {
        let mid: u128 = lo + (hi - lo) / 2;
        assert(mid * mid <= 0x8000_0000_0000_0000u128 * 0x8000_0000_0000_0000u128) by (nonlinear_arith)
            requires mid <= 0x8000_0000_0000_0000u128;
        if mid * mid <= n {
            lo = mid;
        } else {
            hi = mid;
        }
    }
    assert(hi == lo + 1);
    lo
}

/// `v` pulled into `[-LIMIT, LIMIT]`.
pub fn clamp_coord(v: i128) -> (r: i64)
    ensures
        r as int == clamp(v as int),
{
    if v < -(LIMIT as i128) {
        -LIMIT
    } else if v > LIMIT as i128 {
        LIMIT
    } else {
        v as i64
    }
}

/// `a / b` rounded toward negative infinity.
pub fn floor_div(a: i128, b: i128) -> (r: i128)
    requires
        b > 0,
        -0x1000_0000_0000_0000_0000_0000_0000_0000i128 <= a <= 0x1000_0000_0000_0000_0000_0000_0000_0000i128,
    ensures
        r as int == a as int / b as int,
{
    if a >= 0 {
        let q: u128 = (a as u128) / (b as u128);
        proof {
            assert(q as int == a as int / b as int);
        }
        q as i128
    } else {
        let m: u128 = ((-a) as u128 + (b as u128) - 1) / (b as u128);
        proof {
            let ai = a as int;
            let bi = b as int;
            let q = ai / bi;
            let r = ai % bi;
            vstd::arithmetic::div_mod::lemma_fundamental_div_mod(ai, bi);
            vstd::arithmetic::div_mod::lemma_mod_bound(ai, bi);
            assert(-ai + bi - 1 == bi * (-q) + (bi - 1 - r)) by (nonlinear_arith)
                requires ai == bi * q + r;
            vstd::arithmetic::div_mod::lemma_fundamental_div_mod_converse(
                -ai + bi - 1, bi, -q, bi - 1 - r);
            assert(m as int == -q);
            assert(q < 0) by (nonlinear_arith)
                requires ai == bi * q + r, 0 <= r < bi, ai < 0, bi > 0;
            assert(q >= ai) by (nonlinear_arith)
                requires ai == bi * q + r, 0 <= r < bi, q < 0, bi > 0;
        }
        -(m as i128)
    }
}

/// A vector of three fixed-point coordinates with its length kept beside them.
#[derive(Clone, Copy, Debug)]
pub struct Vector {
    pub x: i64,
    pub y: i64,
    pub z: i64,
    /// Euclidean length, rounded down; kept equal to the coordinates' length.
    pub n: u64,
}

pub open spec fn norm_sq_of(x: int, y: int, z: int) -> int {
    x * x + y * y + z * z
}

/// Bound on the squared length of any vector with coordinates in range.
proof fn lemma_norm_sq_bound(x: int, y: int, z: int)
    requires
        in_range(x),
        in_range(y),
        in_range(z),
    ensures
        0 <= x * x <= LIMIT * LIMIT,
        0 <= y * y <= LIMIT * LIMIT,
        0 <= z * z <= LIMIT * LIMIT,
        0 <= norm_sq_of(x, y, z) <= 3 * LIMIT * LIMIT,
{
    assert(0 <= x * x <= LIMIT * LIMIT) by (nonlinear_arith)
        requires -LIMIT <= x <= LIMIT;
    assert(0 <= y * y <= LIMIT * LIMIT) by (nonlinear_arith)
        requires -LIMIT <= y <= LIMIT;
    assert(0 <= z * z <= LIMIT * LIMIT) by (nonlinear_arith)
        requires -LIMIT <= z <= LIMIT;
}

impl Vector {
    pub open spec fn coords(&self) -> (int, int, int) {
        (self.x as int, self.y as int, self.z as int)
    }

    pub open spec fn norm_sq(&self) -> int {
        norm_sq_of(self.x as int, self.y as int, self.z as int)
    }

    /// Coordinates in range and the kept length equal to the true one.
    pub open spec fn wf(&self) -> bool {
        &&& in_range(self.x as int)
        &&& in_range(self.y as int)
        &&& in_range(self.z as int)
        &&& is_floor_sqrt(self.n as int, self.norm_sq())
    }

    /// The vector with the given coordinates (each saturated into range).
    pub fn new(x: i64, y: i64, z: i64) -> (r: Vector)
        ensures
            r.wf(),
            r.coords() == (clamp(x as int), clamp(y as int), clamp(z as int)),
    {
        let mut v = Vector { x: 0, y: 0, z: 0, n: 0 };
        v.set(x, y, z);
        v
    }

    /// The vector with the given coordinates and their length, rounded down.
    pub fn new_with_length(x: i64, y: i64, z: i64, n: u64) -> (r: Vector)
        requires
            in_range(x as int),
            in_range(y as int),
            in_range(z as int),
            is_floor_sqrt(n as int, norm_sq_of(x as int, y as int, z as int)),
        ensures
            r.wf(),
            r == (Vector { x, y, z, n }),
    {
        Vector { x, y, z, n }
    }

    /// The vector with the given wide coordinates, each saturated into range.
    pub fn new_wide(x: i128, y: i128, z: i128) -> (r: Vector)
        ensures
            r.wf(),
            r.coords() == (clamp(x as int), clamp(y as int), clamp(z as int)),
    {
        let mut v = Vector { x: clamp_coord(x), y: clamp_coord(y), z: clamp_coord(z), n: 0 };
        v.refresh();
        v
    }

    /// Recomputes the kept length from the coordinates.
    fn refresh(&mut self)
        requires
            in_range(old(self).x as int),
            in_range(old(self).y as int),
            in_range(old(self).z as int),
        ensures
            final(self).wf(),
            final(self).coords() == old(self).coords(),
    {
        proof {
            lemma_norm_sq_bound(self.x as int, self.y as int, self.z as int);
        }
        let sq: i64 = self.x * self.x + self.y * self.y + self.z * self.z;
        let r = floor_sqrt(sq as u128);
        proof {
            assert(r <= 0x8000_0000u128) by (nonlinear_arith)
                requires
                    r * r <= sq,
                    sq <= 3 * LIMIT * LIMIT,
                    LIMIT == 1073741824;
        }
        self.n = r as u64;
    }

    /// The length, rounded down.
    pub fn magnitude(&self) -> (r: u64)
        requires
            self.wf(),
        ensures
            is_floor_sqrt(r as int, self.norm_sq()),
    {
        self.n
    }

    /// Overwrites the coordinates (each saturated into range).
    pub fn set(&mut self, x: i64, y: i64, z: i64)
        ensures
            final(self).wf(),
            final(self).coords() == (clamp(x as int), clamp(y as int), clamp(z as int)),
    {
        self.x = clamp_coord(x as i128);
        self.y = clamp_coord(y as i128);
        self.z = clamp_coord(z as i128);
        self.refresh();
    }

    /// Copies another vector.
    pub fn set_as(&mut self, other: &Vector)
        requires
            other.wf(),
        ensures
            *final(self) == *other,
    {
        *self = *other;
    }

    /// Adds `other` in place (each coordinate saturated into range).
    pub fn add(&mut self, other: &Vector)
        requires
            old(self).wf(),
            other.wf(),
        ensures
            final(self).wf(),
            final(self).coords() == (
                clamp(old(self).x + other.x),
                clamp(old(self).y + other.y),
                clamp(old(self).z + other.z),
            ),
    {
        self.x = clamp_coord(self.x as i128 + other.x as i128);
        self.y = clamp_coord(self.y as i128 + other.y as i128);
        self.z = clamp_coord(self.z as i128 + other.z as i128);
        self.refresh();
    }

    /// Subtracts `other` in place (each coordinate saturated into range).
    pub fn minus(&mut self, other: &Vector)
        requires
            old(self).wf(),
            other.wf(),
        ensures
            final(self).wf(),
            final(self).coords() == (
                clamp(old(self).x - other.x),
                clamp(old(self).y - other.y),
                clamp(old(self).z - other.z),
            ),
    {
        self.x = clamp_coord(self.x as i128 - other.x as i128);
        self.y = clamp_coord(self.y as i128 - other.y as i128);
        self.z = clamp_coord(self.z as i128 - other.z as i128);
        self.refresh();
    }

    /// Scales in place by the fixed-point factor `factor / UNIT`; each
    /// coordinate is rounded down and saturated into range.
    pub fn mult(&mut self, factor: i64)
        requires
            old(self).wf(),
        ensures
            final(self).wf(),
            final(self).coords() == (
                clamp(old(self).x * factor / UNIT as int),
                clamp(old(self).y * factor / UNIT as int),
                clamp(old(self).z * factor / UNIT as int),
            ),
    {
        proof {
            lemma_scale_bound(self.x as int, factor as int);
            lemma_scale_bound(self.y as int, factor as int);
            lemma_scale_bound(self.z as int, factor as int);
            lemma_div_unit_bound(self.x * factor);
            lemma_div_unit_bound(self.y * factor);
            lemma_div_unit_bound(self.z * factor);
        }
        self.x = clamp_coord(floor_div(self.x as i128 * factor as i128, UNIT as i128));
        self.y = clamp_coord(floor_div(self.y as i128 * factor as i128, UNIT as i128));
        self.z = clamp_coord(floor_div(self.z as i128 * factor as i128, UNIT as i128));
        self.refresh();
    }

    /// Replaces the vector by its cross product with `other` (right-handed).
    pub fn cross(&mut self, other: &Vector)
        requires
            old(self).wf(),
            other.wf(),
        ensures
            final(self).wf(),
            final(self).coords() == clamp3(cross_of(old(self).coords(), other.coords())),
    {
        proof {
            lemma_mul_bound(self.y as int, other.z as int);
            lemma_mul_bound(self.z as int, other.y as int);
            lemma_mul_bound(self.z as int, other.x as int);
            lemma_mul_bound(self.x as int, other.z as int);
            lemma_mul_bound(self.x as int, other.y as int);
            lemma_mul_bound(self.y as int, other.x as int);
        }
        let (ax, ay, az) = (self.x as i128, self.y as i128, self.z as i128);
        let (bx, by, bz) = (other.x as i128, other.y as i128, other.z as i128);
        self.x = clamp_coord(ay * bz - az * by);
        self.y = clamp_coord(az * bx - ax * bz);
        self.z = clamp_coord(ax * by - ay * bx);
        self.refresh();
    }

    /// Rescales to length `UNIT` (one scene unit). The length is measured
    /// `FINE` times more finely before dividing, and each coordinate is
    /// rounded down; the result's length is within a few fixed-point steps
    /// of `UNIT`.
    pub fn normalise(&mut self)
        requires
            old(self).wf(),
            old(self).n > 0,
        ensures
            final(self).wf(),
            final(self).coords() == (
                old(self).x * (UNIT * FINE) / fine_length(old(self).norm_sq()),
                old(self).y * (UNIT * FINE) / fine_length(old(self).norm_sq()),
                old(self).z * (UNIT * FINE) / fine_length(old(self).norm_sq()),
            ),
            UNIT - 4 <= final(self).n <= UNIT + 2,
    {
        proof {
            lemma_norm_sq_bound(self.x as int, self.y as int, self.z as int);
            assert(self.norm_sq() > 0) by (nonlinear_arith)
                requires is_floor_sqrt(self.n as int, self.norm_sq()), self.n > 0;
            assert(self.norm_sq() * (FINE * FINE) < 0x4000_0000_0000_0000_0000_0000_0000_0000) by (nonlinear_arith)
                requires self.norm_sq() <= 3 * LIMIT * LIMIT, LIMIT == 0x4000_0000, FINE == 0x1_0000_0000;
        }
        let sq: u128 = (self.x * self.x + self.y * self.y + self.z * self.z) as u128;
        let m = floor_sqrt(sq * 0x1_0000_0000_0000_0000u128);
        proof {
            lemma_floor_sqrt_unique(m as int, fine_length(self.norm_sq()), self.norm_sq() * (FINE * FINE));
            lemma_normalise_close(self.x as int, self.y as int, self.z as int, m as int);
        }
        let k: i128 = (UNIT as i128) * (FINE as i128);
        let m = m as i128;
        let x = floor_div(self.x as i128 * k, m);
        let y = floor_div(self.y as i128 * k, m);
        let z = floor_div(self.z as i128 * k, m);
        self.x = x as i64;
        self.y = y as i64;
        self.z = z as i64;
        self.refresh();
        proof {
            let q = norm_sq_of(x as int, y as int, z as int);
            let n = self.n as int;
            let u = UNIT as int;
            assert(u - 4 <= n) by (nonlinear_arith)
                requires (u - 4) * (u - 4) <= q, q < (n + 1) * (n + 1), n >= 0, u == 1000;
            assert(n <= u + 2) by (nonlinear_arith)
                requires n * n <= q, q < (u + 3) * (u + 3), n >= 0, u == 1000;
        }
    }

    /// Dot product, exact.
    pub fn dot(&self, other: &Vector) -> (r: i64)
        requires
            self.wf(),
            other.wf(),
        ensures
            r as int == dot_of(self.coords(), other.coords()),
    {
        proof {
            lemma_dot_bound(self.coords(), other.coords());
        }
        self.x * other.x + self.y * other.y + self.z * other.z
    }
}

/// How many times more finely `normalise` measures a length.
pub const FINE: i64 = 0x1_0000_0000;

/// The length of a vector of squared length `sq`, in `1/FINE` steps, rounded down.
pub open spec fn fine_length(sq: int) -> int {
    choose|m: int| #[trigger] is_floor_sqrt(m, sq * (FINE * FINE))
}

/// One coordinate of a normalised vector: with `m * q == X - d`, `0 <= d < m`
/// and `|X| < w`, the square `(m q)^2` stays within `2 w m + m^2` of `X^2`.
proof fn lemma_rounded_square(xk: int, d: int, m: int, q: int, w: int)
    requires
        0 <= d < m,
        w > 0,
        -w < xk < w,
        m * q == xk - d,
    ensures
        (m * q) * (m * q) < xk * xk + 2 * w * m + m * m,
        (m * q) * (m * q) > xk * xk - 2 * w * m,
{
    assert(xk * d < w * m && xk * d > -w * m) by (nonlinear_arith)
        requires 0 <= d < m, -w < xk < w, w > 0;
    assert(0 <= d * d < m * m) by (nonlinear_arith)
        requires 0 <= d < m;
    assert((m * q) * (m * q) == xk * xk - 2 * (xk * d) + d * d) by (nonlinear_arith)
        requires m * q == xk - d;
    assert(2 * w * m == 2 * (w * m) && -w * m == -(w * m)) by (nonlinear_arith);
}

/// `normalise` lands within a few steps of `UNIT`: with `m` the fine length,
/// the rounded coordinates' squared length lies in `[(UNIT-4)^2, (UNIT+3)^2)`.
proof fn lemma_normalise_close(x: int, y: int, z: int, m: int)
    requires
        in_range(x),
        in_range(y),
        in_range(z),
        norm_sq_of(x, y, z) > 0,
        is_floor_sqrt(m, norm_sq_of(x, y, z) * (FINE * FINE)),
    ensures
        m > 0,
        ({
            let k = UNIT * FINE;
            let q = norm_sq_of(x * k / m, y * k / m, z * k / m);
            &&& (UNIT - 4) * (UNIT - 4) <= q < (UNIT + 3) * (UNIT + 3)
            &&& in_range(x * k / m)
            &&& in_range(y * k / m)
            &&& in_range(z * k / m)
        }),
{
    let u = UNIT as int;
    let s = FINE as int;
    let k = u * s;
    let kk = k * k;
    let nn = norm_sq_of(x, y, z);
    let (x2, y2, z2) = (x * x, y * y, z * z);
    assert(x2 >= 0 && y2 >= 0 && z2 >= 0) by (nonlinear_arith)
        requires x2 == x * x, y2 == y * y, z2 == z * z;
    assert(m >= s) by (nonlinear_arith)
        requires nn >= 1, nn * (s * s) < (m + 1) * (m + 1), m >= 0, s > 0;
    let w = u * (m + 1);
    assert(w > 0) by (nonlinear_arith)
        requires w == u * (m + 1), u > 0, m >= 0;
    assert(w * w == u * u * ((m + 1) * (m + 1))) by (nonlinear_arith)
        requires w == u * (m + 1);
    assert(kk * nn < w * w) by (nonlinear_arith)
        requires nn * (s * s) < (m + 1) * (m + 1), kk == (u * s) * (u * s), u > 0,
            w * w == u * u * ((m + 1) * (m + 1));
    assert(kk * nn >= u * u * (m * m)) by (nonlinear_arith)
        requires m * m <= nn * (s * s), kk == (u * s) * (u * s), u > 0;
    assert(kk * nn == kk * x2 + kk * y2 + kk * z2) by (nonlinear_arith)
        requires nn == x2 + y2 + z2;
    assert((x * k) * (x * k) == kk * x2) by (nonlinear_arith)
        requires kk == k * k, x2 == x * x;
    assert((y * k) * (y * k) == kk * y2) by (nonlinear_arith)
        requires kk == k * k, y2 == y * y;
    assert((z * k) * (z * k) == kk * z2) by (nonlinear_arith)
        requires kk == k * k, z2 == z * z;
    assert(kk * x2 >= 0 && kk * y2 >= 0 && kk * z2 >= 0) by (nonlinear_arith)
        requires kk == k * k, x2 >= 0, y2 >= 0, z2 >= 0;
    assert(-w < x * k < w) by (nonlinear_arith)
        requires (x * k) * (x * k) < w * w, w > 0;
    assert(-w < y * k < w) by (nonlinear_arith)
        requires (y * k) * (y * k) < w * w, w > 0;
    assert(-w < z * k < w) by (nonlinear_arith)
        requires (z * k) * (z * k) < w * w, w > 0;
    let (qx, qy, qz) = (x * k / m, y * k / m, z * k / m);
    vstd::arithmetic::div_mod::lemma_fundamental_div_mod(x * k, m);
    vstd::arithmetic::div_mod::lemma_fundamental_div_mod(y * k, m);
    vstd::arithmetic::div_mod::lemma_fundamental_div_mod(z * k, m);
    vstd::arithmetic::div_mod::lemma_mod_bound(x * k, m);
    vstd::arithmetic::div_mod::lemma_mod_bound(y * k, m);
    vstd::arithmetic::div_mod::lemma_mod_bound(z * k, m);
    lemma_rounded_square(x * k, (x * k) % m, m, qx, w);
    lemma_rounded_square(y * k, (y * k) % m, m, qy, w);
    lemma_rounded_square(z * k, (z * k) % m, m, qz, w);
    let q = norm_sq_of(qx, qy, qz);
    let mm = m * m;
    assert(mm * q == (m * qx) * (m * qx) + (m * qy) * (m * qy) + (m * qz) * (m * qz))
        by (nonlinear_arith)
        requires mm == m * m, q == qx * qx + qy * qy + qz * qz;
    let e = 2 * w * m;
    assert(mm * q < w * w + 3 * e + 3 * mm);
    assert(mm * q > u * u * mm - 3 * e);
    assert(q < (u + 3) * (u + 3)) by (nonlinear_arith)
        requires
            mm * q < w * w + 3 * e + 3 * mm,
            w * w == u * u * ((m + 1) * (m + 1)),
            e == 2 * w * m,
            w == u * (m + 1),
            mm == m * m,
            m >= 0x1_0000_0000,
            u == 1000,
    {
        assert(w * w + 3 * e + 3 * mm < mm * ((u + 3) * (u + 3))) by (nonlinear_arith)
            requires
                w * w == u * u * ((m + 1) * (m + 1)),
                e == 2 * w * m,
                w == u * (m + 1),
                mm == m * m,
                m >= 0x1_0000_0000,
                u == 1000;
    }
    assert(q >= (u - 4) * (u - 4)) by (nonlinear_arith)
        requires
            mm * q > u * u * mm - 3 * e,
            e == 2 * w * m,
            w == u * (m + 1),
            mm == m * m,
            m >= 0x1_0000_0000,
            u == 1000,
    {
        assert(u * u * mm - 3 * e >= mm * ((u - 4) * (u - 4))) by (nonlinear_arith)
            requires
                e == 2 * w * m,
                w == u * (m + 1),
                mm == m * m,
                m >= 0x1_0000_0000,
                u == 1000;
    }
    assert(qx * qx <= q && qy * qy <= q && qz * qz <= q) by (nonlinear_arith)
        requires q == qx * qx + qy * qy + qz * qz;
    assert(-(u + 3) < qx < u + 3) by (nonlinear_arith)
        requires qx * qx < (u + 3) * (u + 3), u > 0;
    assert(-(u + 3) < qy < u + 3) by (nonlinear_arith)
        requires qy * qy < (u + 3) * (u + 3), u > 0;
    assert(-(u + 3) < qz < u + 3) by (nonlinear_arith)
        requires qz * qz < (u + 3) * (u + 3), u > 0;
}

pub open spec fn dot_of(a: (int, int, int), b: (int, int, int)) -> int {
    a.0 * b.0 + a.1 * b.1 + a.2 * b.2
}

proof fn lemma_mul_bound(a: int, b: int)
    requires
        in_range(a),
        in_range(b),
    ensures
        -LIMIT * LIMIT <= a * b <= LIMIT * LIMIT,
{
    assert(-LIMIT * LIMIT <= a * b <= LIMIT * LIMIT) by (nonlinear_arith)
        requires
            -LIMIT <= a <= LIMIT,
            -LIMIT <= b <= LIMIT,
            LIMIT > 0;
}

pub open spec fn cross_of(a: (int, int, int), b: (int, int, int)) -> (int, int, int) {
    (a.1 * b.2 - a.2 * b.1, a.2 * b.0 - a.0 * b.2, a.0 * b.1 - a.1 * b.0)
}

pub open spec fn clamp3(v: (int, int, int)) -> (int, int, int) {
    (clamp(v.0), clamp(v.1), clamp(v.2))
}

proof fn lemma_scale_bound(a: int, f: int)
    requires
        in_range(a),
        i64::MIN <= f <= i64::MAX,
    ensures
        -0x4000_0000 * 0x8000_0000_0000_0000 <= a * f <= 0x4000_0000 * 0x8000_0000_0000_0000,
{
    assert(-0x4000_0000 * 0x8000_0000_0000_0000 <= a * f <= 0x4000_0000 * 0x8000_0000_0000_0000)
        by (nonlinear_arith)
        requires
            -0x4000_0000 <= a <= 0x4000_0000,
            -0x8000_0000_0000_0000 <= f <= 0x8000_0000_0000_0000,
    {
    }
}

proof fn lemma_div_unit_bound(v: int)
    requires
        -0x4000_0000 * 0x8000_0000_0000_0000 <= v <= 0x4000_0000 * 0x8000_0000_0000_0000,
    ensures
        -0x4000_0000 * 0x8000_0000_0000_0000 <= v / UNIT as int <= 0x4000_0000 * 0x8000_0000_0000_0000,
{
    assert(-0x4000_0000 * 0x8000_0000_0000_0000 <= v / 1000 <= 0x4000_0000 * 0x8000_0000_0000_0000)
        by (nonlinear_arith)
        requires -0x4000_0000 * 0x8000_0000_0000_0000 <= v <= 0x4000_0000 * 0x8000_0000_0000_0000,
    {
        let q = v / 1000;
        let r = v % 1000;
        assert(v == 1000 * q + r && 0 <= r < 1000);
    }
}

proof fn lemma_dot_bound(a: (int, int, int), b: (int, int, int))
    requires
        in_range(a.0),
        in_range(a.1),
        in_range(a.2),
        in_range(b.0),
        in_range(b.1),
        in_range(b.2),
    ensures
        -LIMIT * LIMIT <= a.0 * b.0 <= LIMIT * LIMIT,
        -LIMIT * LIMIT <= a.1 * b.1 <= LIMIT * LIMIT,
        -LIMIT * LIMIT <= a.2 * b.2 <= LIMIT * LIMIT,
        -3 * LIMIT * LIMIT <= dot_of(a, b) <= 3 * LIMIT * LIMIT,
{
    lemma_mul_bound(a.0, b.0);
    lemma_mul_bound(a.1, b.1);
    lemma_mul_bound(a.2, b.2);
}

/// The cross product is orthogonal to both of its factors.
pub proof fn lemma_cross_orthogonal(a: Vector, b: Vector)
    ensures
        dot_of(cross_of(a.coords(), b.coords()), a.coords()) == 0,
        dot_of(cross_of(a.coords(), b.coords()), b.coords()) == 0,
{
    let (ax, ay, az) = a.coords();
    let (bx, by, bz) = b.coords();
    assert((ay * bz - az * by) * ax + (az * bx - ax * bz) * ay + (ax * by - ay * bx) * az == 0)
        by (nonlinear_arith);
    assert((ay * bz - az * by) * bx + (az * bx - ax * bz) * by + (ax * by - ay * bx) * bz == 0)
        by (nonlinear_arith);
}

} // verus!
