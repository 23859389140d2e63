//! Fixed-point 3-D vectors. One world unit is `MILLI` (1000) integer steps,
//! so a coordinate of `1500` stands for 1.5 world units.

use vstd::prelude::*;
use vstd::arithmetic::div_mod::*;
use vstd::arithmetic::mul::*;

verus! {

/// Number of integer steps per world unit.
pub const MILLI: i64 = 1000;

/// Largest coordinate magnitude the length computations accept.
pub const COORD_LIMIT: i64 = 0x1000_0000_0000_0000;

/// Magnitude of a mathematical integer.
pub open spec fn iabs(a: int) -> int {
    if a >= 0 {
        a
    } else {
        -a
    }
}

/// Largest `r >= 0` with `r * r <= n` (0 for negative `n`).
pub open spec fn sqrt_floor(n: int) -> int
    decreases n,
{
    if n <= 0 {
        0
    } else {
        let r = sqrt_floor(n - 1);
        if (r + 1) * (r + 1) <= n {
            r + 1
        } else {
            r
        }
    }
}

pub proof fn lemma_sqrt_floor(n: int)
    requires
        n >= 0,
    ensures
        sqrt_floor(n) >= 0,
        sqrt_floor(n) * sqrt_floor(n) <= n,
        n < (sqrt_floor(n) + 1) * (sqrt_floor(n) + 1),
    decreases n,
{
    if n == 0 {
    } else {
        lemma_sqrt_floor(n - 1);
        let r = sqrt_floor(n - 1);
        if (r + 1) * (r + 1) <= n {
            assert(n <= (r + 1) * (r + 1)) by {
                assert(n - 1 < (r + 1) * (r + 1));
            }
            assert((r + 2) * (r + 2) > (r + 1) * (r + 1)) by (nonlinear_arith)
                requires
                    r >= 0,
            ;
        }
    }
}

pub proof fn lemma_sqrt_floor_unique(n: int, r: int)
    requires
        n >= 0,
        r >= 0,
        r * r <= n,
        n < (r + 1) * (r + 1),
    ensures
        r == sqrt_floor(n),
{
    lemma_sqrt_floor(n);
    let s = sqrt_floor(n);
    if r < s {
        assert((r + 1) * (r + 1) <= s * s) by (nonlinear_arith)
            requires
                0 <= r,
                r + 1 <= s,
            ;
    }
    if s < r {
        assert((s + 1) * (s + 1) <= r * r) by (nonlinear_arith)
            requires
                0 <= s,
                s + 1 <= r,
            ;
    }
}

/// Truncating division shrinks the magnitude: `|a / b| * b <= |a|`.
pub proof fn lemma_sdiv_abs(a: int, b: int)
    requires
        b >= 1,
    ensures
        iabs(sdiv(a, b)) * b <= iabs(a),
        iabs(sdiv(a, b)) <= iabs(a),
        a >= 0 ==> sdiv(a, b) >= 0,
        a <= 0 ==> sdiv(a, b) <= 0,
{
    lemma_sdiv_abs_nonneg(iabs(a), b);
    if a >= 0 {
    } else {
        assert(sdiv(a, b) == -((-a) / b));
        assert(iabs(sdiv(a, b)) == (-a) / b) by {
            lemma_div_pos_is_pos(-a, b);
        }
    }
}

proof fn lemma_sdiv_abs_nonneg(a: int, b: int)
    requires
        a >= 0,
        b >= 1,
    ensures
        sdiv(a, b) >= 0,
        sdiv(a, b) * b <= a,
        sdiv(a, b) <= a,
{
    lemma_div_pos_is_pos(a, b);
    lemma_fundamental_div_mod(a, b);
    lemma_mod_division_less_than_divisor(a, b);
    assert(a == b * (a / b) + a % b);
    assert(b * (a / b) == (a / b) * b) by {
        lemma_mul_is_commutative(b, a / b);
    }
    assert(sdiv(a, b) * b <= a);
    assert(a / b <= a) by {
        lemma_div_is_ordered_by_denominator(a, 1, b);
        lemma_div_by_self(1);
        assert(a / 1 == a) by {
            lemma_div_basics(a);
        }
    }
}

/// A 3-D vector with fixed-point integer coordinates.
#[derive(Clone, Copy, Debug, PartialEq, Eq, Structural)]
pub struct Vec3 {
    pub x: i64,
    pub y: i64,
    pub z: i64,
}

/// Division that truncates toward zero (the machine's `/`), stated over
/// mathematical integers via the Euclidean `/` on magnitudes.
pub open spec fn sdiv(a: int, b: int) -> int {
    if a >= 0 {
        a / b
    } else {
        -((-a) / b)
    }
}

/// Squared Euclidean length of a coordinate triple.
pub open spec fn norm2(x: int, y: int, z: int) -> int {
    x * x + y * y + z * z
}

impl Vec3 {
    /// Squared length as a mathematical integer.
    pub open spec fn len2(self) -> int {
        norm2(self.x as int, self.y as int, self.z as int)
    }

    /// Every coordinate lies in `[-b, b]`.
    pub open spec fn bounded(self, b: int) -> bool {
        -b <= self.x <= b && -b <= self.y <= b && -b <= self.z <= b
    }

    pub fn zero() -> (r: Vec3)
        ensures
            r == (Vec3 { x: 0, y: 0, z: 0 }),
    {
        Vec3 { x: 0, y: 0, z: 0 }
    }

    pub fn plus(self, o: Vec3) -> (r: Vec3)
        requires
            self.x + o.x <= i64::MAX,
            self.x + o.x >= i64::MIN,
            self.y + o.y <= i64::MAX,
            self.y + o.y >= i64::MIN,
            self.z + o.z <= i64::MAX,
            self.z + o.z >= i64::MIN,
        ensures
            r.x == self.x + o.x,
            r.y == self.y + o.y,
            r.z == self.z + o.z,
    {
        Vec3 { x: self.x + o.x, y: self.y + o.y, z: self.z + o.z }
    }

    pub fn minus(self, o: Vec3) -> (r: Vec3)
        requires
            self.x - o.x <= i64::MAX,
            self.x - o.x >= i64::MIN,
            self.y - o.y <= i64::MAX,
            self.y - o.y >= i64::MIN,
            self.z - o.z <= i64::MAX,
            self.z - o.z >= i64::MIN,
        ensures
            r.x == self.x - o.x,
            r.y == self.y - o.y,
            r.z == self.z - o.z,
    {
        Vec3 { x: self.x - o.x, y: self.y - o.y, z: self.z - o.z }
    }
}

/// Squared distance between two bounded points.
pub fn dist2(a: Vec3, b: Vec3) -> (r: i128)
    requires
        a.bounded(COORD_LIMIT as int),
        b.bounded(COORD_LIMIT as int),
    ensures
        r == norm2(a.x - b.x, a.y - b.y, a.z - b.z),
{
    let dx: i128 = (a.x as i128) - (b.x as i128);
    let dy: i128 = (a.y as i128) - (b.y as i128);
    let dz: i128 = (a.z as i128) - (b.z as i128);
    proof {
        lemma_sq_bound(dx as int, 2 * COORD_LIMIT as int);
        lemma_sq_bound(dy as int, 2 * COORD_LIMIT as int);
        lemma_sq_bound(dz as int, 2 * COORD_LIMIT as int);
    }
    dx * dx + dy * dy + dz * dz
}

/// Truncating division of a machine integer by a positive divisor.
pub fn div_trunc(a: i64, b: i64) -> (r: i64)
    requires
        b >= 1,
        a > i64::MIN,
    ensures
        r == sdiv(a as int, b as int),
{
    if a >= 0 {
        a / b
    } else {
        -((-a) / b)
    }
}

/// Truncating division of a wide integer by a positive divisor.
pub fn div_trunc_i128(a: i128, b: i128) -> (r: i128)
    requires
        b >= 1,
        a > i128::MIN,
    ensures
        r == sdiv(a as int, b as int),
{
    if a >= 0 {
        a / b
    } else {
        -((-a) / b)
    }
}

/// Floor of the square root of `n`, by bisection.
pub fn isqrt_u128(n: u128) -> (r: u128)
    requires
        n < 0x4000_0000_0000_0000_0000_0000_0000_0000,
    ensures
        r == sqrt_floor(n as int),
        r * r <= n,
        n < (r + 1) * (r + 1),
{
    let mut lo: u128 = 0;
    let mut hi: u128 = 0x8000_0000_0000_0000;
    assert(hi * hi > n) by (nonlinear_arith)
        requires
            hi == 0x8000_0000_0000_0000,
            n < 0x4000_0000_0000_0000_0000_0000_0000_0000,
    ;
    while lo + 1 < hi
        invariant
            lo < hi,
            hi <= 0x8000_0000_0000_0000,
            lo * lo <= n,
            n < hi * hi,
        decreases hi - lo,
    {
        let mid = lo + (hi - lo) / 2;
        assert(lo < mid < hi);
        assert(mid * mid <= 0x4000_0000_0000_0000_0000_0000_0000_0000) by (nonlinear_arith)
            requires
                0 <= mid,
                mid <= 0x8000_0000_0000_0000,
        ;
        if mid * mid <= n {
            lo = mid;
        } else {
            hi = mid;
        }
    }
    proof {
        lemma_sqrt_floor_unique(n as int, lo as int);
    }
    lo
}

/// Component-wise `(num * v) / den` with truncation toward zero.
pub fn scale_div(v: Vec3, num: i64, den: i64) -> (r: Vec3)
    requires
        den >= 1,
        iabs(num * v.x) <= den * (i64::MAX as int),
        iabs(num * v.y) <= den * (i64::MAX as int),
        iabs(num * v.z) <= den * (i64::MAX as int),
    ensures
        r.x == sdiv(num * v.x, den as int),
        r.y == sdiv(num * v.y, den as int),
        r.z == sdiv(num * v.z, den as int),
{
    Vec3 {
        x: scale_div_coord(v.x, num, den),
        y: scale_div_coord(v.y, num, den),
        z: scale_div_coord(v.z, num, den),
    }
}

fn scale_div_coord(c: i64, num: i64, den: i64) -> (r: i64)
    requires
        den >= 1,
        iabs(num * c) <= den * (i64::MAX as int),
    ensures
        r == sdiv(num * c, den as int),
{
    let p: i128 = (num as i128) * (c as i128);
    let q = div_trunc_i128(p, den as i128);
    proof {
        lemma_sdiv_abs(p as int, den as int);
        lemma_sdiv_in_bound(p as int, den as int, i64::MAX as int);
    }
    q as i64
}

/// If `|a| <= den * m` then `-m <= a / den <= m`.
pub proof fn lemma_sdiv_in_range(a: int, den: int, m: int)
    requires
        den >= 1,
        m >= 0,
        iabs(a) <= den * m,
    ensures
        -m <= sdiv(a, den) <= m,
        iabs(sdiv(a, den)) <= m,
{
    lemma_sdiv_in_bound(a, den, m);
}

/// If `|a| <= den * m` then `|a / den| <= m`.
proof fn lemma_sdiv_in_bound(a: int, den: int, m: int)
    requires
        den >= 1,
        m >= 0,
        iabs(a) <= den * m,
    ensures
        iabs(sdiv(a, den)) <= m,
{
    lemma_sdiv_abs(a, den);
    assert(iabs(sdiv(a, den)) * den <= den * m);
    assert(iabs(sdiv(a, den)) <= m) by (nonlinear_arith)
        requires
            den >= 1,
            iabs(sdiv(a, den)) * den <= den * m,
    ;
}

/// The squared length of the scaled-down triple stays under `m * m`.
pub proof fn lemma_scaled_len2_bound(
    x: int,
    y: int,
    z: int,
    m: int,
    d: int,
    rx: int,
    ry: int,
    rz: int,
)
    requires
        d >= 1,
        m >= 0,
        norm2(x, y, z) < d * d,
        rx == sdiv(x * m, d),
        ry == sdiv(y * m, d),
        rz == sdiv(z * m, d),
    ensures
        norm2(rx, ry, rz) <= m * m,
{
    lemma_sdiv_abs(x * m, d);
    lemma_sdiv_abs(y * m, d);
    lemma_sdiv_abs(z * m, d);
    lemma_scaled_sq(x, m, d, rx);
    lemma_scaled_sq(y, m, d, ry);
    lemma_scaled_sq(z, m, d, rz);
    let n2 = norm2(x, y, z);
    let n2r = norm2(rx, ry, rz);
    assert(n2r * (d * d) <= n2 * (m * m)) by (nonlinear_arith)
        requires
            rx * rx * (d * d) <= x * x * (m * m),
            ry * ry * (d * d) <= y * y * (m * m),
            rz * rz * (d * d) <= z * z * (m * m),
            n2 == x * x + y * y + z * z,
            n2r == rx * rx + ry * ry + rz * rz,
    ;
    assert(n2r <= m * m) by (nonlinear_arith)
        requires
            d >= 1,
            m >= 0,
            n2r == rx * rx + ry * ry + rz * rz,
            n2r * (d * d) <= n2 * (m * m),
            n2 < d * d,
    ;
}

/// A product of bounded factors is bounded.
pub proof fn lemma_mul_bound(a: int, b: int, abound: int, bbound: int)
    by (nonlinear_arith)
    requires
        -abound <= a <= abound,
        -bbound <= b <= bbound,
    ensures
        -(abound * bbound) <= a * b <= abound * bbound,
{
}

/// A quotient with a numerator smaller than the divisor is zero.
pub proof fn lemma_small_sdiv(a: int, b: int)
    requires
        b >= 1,
        iabs(a) < b,
    ensures
        sdiv(a, b) == 0,
{
    lemma_basic_div(iabs(a), b);
    if a >= 0 {
    } else {
        assert(sdiv(a, b) == -((-a) / b));
    }
}

/// A quotient is at least `q` when the numerator is at least `q * b`.
pub proof fn lemma_sdiv_abs_ge(a: int, b: int, q: int)
    requires
        b >= 1,
        q >= 0,
        iabs(a) >= q * b,
    ensures
        iabs(sdiv(a, b)) >= q,
{
    lemma_div_is_ordered(q * b, iabs(a), b);
    lemma_div_by_multiple(q, b);
    assert(iabs(a) / b >= q);
    if a >= 0 {
    } else {
        assert(sdiv(a, b) == -((-a) / b));
        lemma_div_pos_is_pos(-a, b);
    }
}

/// A square of a bounded coordinate is bounded.
pub proof fn lemma_sq_bound(c: int, b: int)
    by (nonlinear_arith)
    requires
        -b <= c <= b,
    ensures
        0 <= c * c <= b * b,
{
}

/// What `clamp_length_max` returns: the vector itself under the cap,
/// else the vector scaled down by `max / (sqrt_floor(|v|^2) + 1)`.
pub open spec fn clamp_spec(v: Vec3, max: int) -> Vec3 {
    if v.len2() <= max * max {
        v
    } else {
        let d = sqrt_floor(v.len2()) + 1;
        Vec3 {
            x: sdiv(v.x * max, d) as i64,
            y: sdiv(v.y * max, d) as i64,
            z: sdiv(v.z * max, d) as i64,
        }
    }
}

/// Truncating division loses less than one unit: `|a/b| * b > |a| - b`.
pub proof fn lemma_sdiv_abs_lower(a: int, b: int)
    requires
        b >= 1,
    ensures
        iabs(sdiv(a, b)) * b > iabs(a) - b,
{
    lemma_fundamental_div_mod(iabs(a), b);
    lemma_mod_division_less_than_divisor(iabs(a), b);
    lemma_div_pos_is_pos(iabs(a), b);
    assert(iabs(a) == b * (iabs(a) / b) + iabs(a) % b);
    assert(b * (iabs(a) / b) == (iabs(a) / b) * b) by {
        lemma_mul_is_commutative(b, iabs(a) / b);
    }
    if a >= 0 {
    } else {
        assert(sdiv(a, b) == -((-a) / b));
        assert(iabs(sdiv(a, b)) == (-a) / b);
    }
}

/// Clamping never grows any coordinate's magnitude and never flips its
/// sign.
pub proof fn lemma_clamp_shrinks(v: Vec3, max: int)
    requires
        0 <= max,
        v.bounded(COORD_LIMIT as int),
    ensures
        iabs(clamp_spec(v, max).x as int) <= iabs(v.x as int),
        iabs(clamp_spec(v, max).y as int) <= iabs(v.y as int),
        iabs(clamp_spec(v, max).z as int) <= iabs(v.z as int),
        (v.x as int) * (clamp_spec(v, max).x as int) >= 0,
        (v.y as int) * (clamp_spec(v, max).y as int) >= 0,
        (v.z as int) * (clamp_spec(v, max).z as int) >= 0,
{
    if v.len2() <= max * max {
        lemma_sq_nonneg(v.x as int);
        lemma_sq_nonneg(v.y as int);
        lemma_sq_nonneg(v.z as int);
    } else {
        lemma_sqrt_floor(v.len2());
        let d = sqrt_floor(v.len2()) + 1;
        lemma_sq_nonneg(v.x as int);
        lemma_sq_nonneg(v.y as int);
        lemma_sq_nonneg(v.z as int);
        lemma_clamp_coord_shrinks(v.x as int, max, d, v.len2());
        lemma_clamp_coord_shrinks(v.y as int, max, d, v.len2());
        lemma_clamp_coord_shrinks(v.z as int, max, d, v.len2());
    }
}

proof fn lemma_sq_nonneg(c: int)
    by (nonlinear_arith)
    ensures
        c * c >= 0,
{
}

proof fn lemma_clamp_coord_shrinks(c: int, m: int, d: int, n2: int)
    requires
        0 <= m,
        d >= 1,
        m * m < n2,
        c * c <= n2,
        n2 < d * d,
        iabs(c) <= i64::MAX as int,
    ensures
        iabs(sdiv(c * m, d) as i64 as int) <= iabs(c),
        c * (sdiv(c * m, d) as i64 as int) >= 0,
{
    lemma_sdiv_abs(c * m, d);
    assert(m < d) by (nonlinear_arith)
        requires
            0 <= m,
            d >= 1,
            m * m < n2,
            n2 < d * d,
    ;
    assert(iabs(sdiv(c * m, d)) * d <= iabs(c * m));
    assert(iabs(c * m) == iabs(c) * m) by (nonlinear_arith)
        requires
            m >= 0,
            iabs(c) == if c >= 0 { c } else { -c },
            iabs(c * m) == if c * m >= 0 { c * m } else { -(c * m) },
    ;
    assert(iabs(sdiv(c * m, d)) <= iabs(c)) by (nonlinear_arith)
        requires
            d >= 1,
            0 <= m < d,
            iabs(sdiv(c * m, d)) * d <= iabs(c) * m,
            iabs(c) >= 0,
            iabs(sdiv(c * m, d)) >= 0,
    ;
    assert(iabs(sdiv(c * m, d)) <= iabs(c * m));
    assert(sdiv(c * m, d) as i64 as int == sdiv(c * m, d)) by {
        assert(iabs(c) <= i64::MAX as int);
    }
    if c > 0 {
        assert(c * m >= 0) by (nonlinear_arith)
            requires
                c >= 0,
                m >= 0,
        ;
        assert(sdiv(c * m, d) >= 0);
        assert(c * sdiv(c * m, d) >= 0) by (nonlinear_arith)
            requires
                c >= 0,
                sdiv(c * m, d) >= 0,
        ;
    } else if c < 0 {
        assert(c * m <= 0) by (nonlinear_arith)
            requires
                c <= 0,
                m >= 0,
        ;
        assert(sdiv(c * m, d) <= 0);
        assert(c * sdiv(c * m, d) >= 0) by (nonlinear_arith)
            requires
                c <= 0,
                sdiv(c * m, d) <= 0,
        ;
    } else {
        assert(sdiv(0 * m, d) == 0) by {
            assert(0 * m == 0) by (nonlinear_arith);
            lemma_div_of0(d);
        }
    }
}

/// A vector whose squared length is under `m * m` has every coordinate
/// in `[-m, m]`.
pub proof fn lemma_len2_bounded(v: Vec3, m: int)
    requires
        0 <= m,
        v.len2() <= m * m,
    ensures
        v.bounded(m),
{
    lemma_sq_nonneg(v.x as int);
    lemma_sq_nonneg(v.y as int);
    lemma_sq_nonneg(v.z as int);
    lemma_sq_bound_converse(v.x as int, m, v.len2());
    lemma_sq_bound_converse(v.y as int, m, v.len2());
    lemma_sq_bound_converse(v.z as int, m, v.len2());
}

/// Clamp the length of `v` to at most `max`, keeping its direction:
/// a vector already under the cap is returned unchanged, a longer one is
/// scaled down by `max / (sqrt_floor(|v|^2) + 1)` component-wise.
pub fn clamp_length_max(v: Vec3, max: i64) -> (r: Vec3)
    requires
        0 <= max,
        v.bounded(COORD_LIMIT as int),
    ensures
        r == clamp_spec(v, max as int),
        r.len2() <= max * max,
        r.bounded(max as int),
        v.len2() <= max * max ==> r == v,
        v.len2() > max * max ==> r.x == sdiv(v.x * max, sqrt_floor(v.len2()) + 1),
        v.len2() > max * max ==> r.y == sdiv(v.y * max, sqrt_floor(v.len2()) + 1),
        v.len2() > max * max ==> r.z == sdiv(v.z * max, sqrt_floor(v.len2()) + 1),
{
    proof {
        lemma_sq_bound(v.x as int, COORD_LIMIT as int);
        lemma_sq_bound(v.y as int, COORD_LIMIT as int);
        lemma_sq_bound(v.z as int, COORD_LIMIT as int);
    }
    let xx: i128 = (v.x as i128) * (v.x as i128);
    let yy: i128 = (v.y as i128) * (v.y as i128);
    let zz: i128 = (v.z as i128) * (v.z as i128);
    let len2: i128 = xx + yy + zz;
    assert(len2 == v.len2());
    proof {
        lemma_sq_bound(max as int, i64::MAX as int);
    }
    let m2: i128 = (max as i128) * (max as i128);
    if len2 <= m2 {
        proof {
            lemma_sq_bound_converse(v.x as int, max as int, v.len2());
            lemma_sq_bound_converse(v.y as int, max as int, v.len2());
            lemma_sq_bound_converse(v.z as int, max as int, v.len2());
        }
        v
    } else {
        let s = isqrt_u128(len2 as u128);
        let ghost d_spec: int = sqrt_floor(v.len2()) + 1;
        assert(s < 0x8000_0000_0000_0000) by (nonlinear_arith)
            requires
                s * s <= len2 as u128,
                (len2 as u128) < 0x4000_0000_0000_0000_0000_0000_0000_0000,
        ;
        let d: i128 = (s as i128) + 1;
        assert(d == d_spec);
        proof {
            lemma_clamp_coord_fits(v.x as int, max as int, v.len2(), s as int);
            lemma_clamp_coord_fits(v.y as int, max as int, v.len2(), s as int);
            lemma_clamp_coord_fits(v.z as int, max as int, v.len2(), s as int);
            lemma_mul_bound(v.x as int, max as int, COORD_LIMIT as int, i64::MAX as int);
            lemma_mul_bound(v.y as int, max as int, COORD_LIMIT as int, i64::MAX as int);
            lemma_mul_bound(v.z as int, max as int, COORD_LIMIT as int, i64::MAX as int);
        }
        let rx = div_trunc_i128((v.x as i128) * (max as i128), d);
        let ry = div_trunc_i128((v.y as i128) * (max as i128), d);
        let rz = div_trunc_i128((v.z as i128) * (max as i128), d);
        proof {
            lemma_sdiv_in_bound(v.x * max, d as int, max as int);
            lemma_sdiv_in_bound(v.y * max, d as int, max as int);
            lemma_sdiv_in_bound(v.z * max, d as int, max as int);
            lemma_scaled_len2_bound(
                v.x as int,
                v.y as int,
                v.z as int,
                max as int,
                d as int,
                rx as int,
                ry as int,
                rz as int,
            );
            let r_built = Vec3 { x: rx as i64, y: ry as i64, z: rz as i64 };
            lemma_sq_bound(r_built.x as int, max as int);
            lemma_sq_bound(r_built.y as int, max as int);
            lemma_sq_bound(r_built.z as int, max as int);
            lemma_sq_bound_converse(r_built.x as int, max as int, r_built.len2());
            lemma_sq_bound_converse(r_built.y as int, max as int, r_built.len2());
            lemma_sq_bound_converse(r_built.z as int, max as int, r_built.len2());
        }
        Vec3 { x: rx as i64, y: ry as i64, z: rz as i64 }
    }
}

/// A coordinate of a vector whose squared length is under `m * m`
/// lies in `[-m, m]`.
proof fn lemma_sq_bound_converse(c: int, m: int, n2: int)
    by (nonlinear_arith)
    requires
        m >= 0,
        c * c <= n2,
        n2 <= m * m,
    ensures
        -m <= c <= m,
{
}

/// In the scaling branch, `|c * max| <= d * max` where `d = s + 1`,
/// so the scaled coordinate fits back into a narrow machine word.
proof fn lemma_clamp_coord_fits(c: int, m: int, n2: int, s: int)
    requires
        m >= 0,
        s >= 0,
        c * c <= n2,
        n2 < (s + 1) * (s + 1),
    ensures
        iabs(c * m) <= (s + 1) * m,
        iabs(sdiv(c * m, s + 1)) <= m,
{
    assert(iabs(c) <= s + 1 && iabs(c * m) == iabs(c) * m && iabs(c) * m <= (s + 1) * m)
        by (nonlinear_arith)
        requires
            m >= 0,
            s >= 0,
            c * c <= n2,
            n2 < (s + 1) * (s + 1),
            iabs(c) == if c >= 0 { c } else { -c },
            iabs(c * m) == if c * m >= 0 { c * m } else { -(c * m) },
    ;
    lemma_sdiv_in_bound(c * m, s + 1, m);
}

proof fn lemma_scaled_sq(c: int, m: int, d: int, rc: int)
    requires
        d >= 1,
        m >= 0,
        rc == sdiv(c * m, d),
    ensures
        rc * rc * (d * d) <= c * c * (m * m),
{
    lemma_sdiv_abs(c * m, d);
    assert(iabs(rc) * d <= iabs(c * m));
    assert(rc * rc * (d * d) <= c * c * (m * m)) by (nonlinear_arith)
        requires
            d >= 1,
            m >= 0,
            iabs(rc) * d <= iabs(c * m),
            iabs(rc) == if rc >= 0 { rc } else { -rc },
            iabs(c * m) == if c * m >= 0 { c * m } else { -(c * m) },
    ;
}

} // verus!
