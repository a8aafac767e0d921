use vstd::prelude::*;

use crate::num::{div_trunc, div_trunc_i128, floor_sqrt, is_floor_sqrt, isqrt};

verus! {

/// A mathematical vector in three dimensions.
pub type V3 = (int, int, int);

/// Component-wise sum.
pub open spec fn vadd(a: V3, b: V3) -> V3 {
    (a.0 + b.0, a.1 + b.1, a.2 + b.2)
}

/// Component-wise difference.
pub open spec fn vsub(a: V3, b: V3) -> V3 {
    (a.0 - b.0, a.1 - b.1, a.2 - b.2)
}

/// Each component multiplied by `k`.
pub open spec fn vscale(a: V3, k: int) -> V3 {
    (a.0 * k, a.1 * k, a.2 * k)
}

/// Dot product.
pub open spec fn vdot(a: V3, b: V3) -> int {
    a.0 * b.0 + a.1 * b.1 + a.2 * b.2
}

/// Cross product `(y1*z2 - z1*y2, z1*x2 - x1*z2, x1*y2 - y1*x2)`.
pub open spec fn vcross(a: V3, b: V3) -> V3 {
    (a.1 * b.2 - a.2 * b.1, a.2 * b.0 - a.0 * b.2, a.0 * b.1 - a.1 * b.0)
}

/// Squared Euclidean length.
pub open spec fn vlen2(a: V3) -> int {
    vdot(a, a)
}

/// Every component is representable as an `i64`.
pub open spec fn fits_i64(a: V3) -> bool {
    i64::MIN <= a.0 <= i64::MAX && i64::MIN <= a.1 <= i64::MAX && i64::MIN <= a.2 <= i64::MAX
}

/// The zero vector.
pub open spec fn vzero() -> V3 {
    (0, 0, 0)
}

/// Largest magnitude of a coordinate of a point of a scene. Room for the
/// products that ray–plane intersection forms is what bounds it.
pub const COORD_LIMIT: i64 = 262144;

/// Every component lies in `[-COORD_LIMIT, COORD_LIMIT]`.
pub open spec fn in_domain(a: V3) -> bool {
    -COORD_LIMIT <= a.0 <= COORD_LIMIT && -COORD_LIMIT <= a.1 <= COORD_LIMIT && -COORD_LIMIT
        <= a.2 <= COORD_LIMIT
}

/// Length that `norm` gives a vector: the fixed-point value of one.
pub const UNIT: i64 = 65536;

/// The unit vectors of the three axes obey the right-hand rule under the
/// cross product (each ordered pair gives the third axis, the reversed pair
/// its negation), and distinct axes have dot product zero.
pub proof fn lemma_cross_basis()
    ensures
        vcross((1, 0, 0), (0, 1, 0)) == (0int, 0int, 1int),
        vcross((0, 1, 0), (0, 0, 1)) == (1int, 0int, 0int),
        vcross((0, 0, 1), (1, 0, 0)) == (0int, 1int, 0int),
        vcross((0, 1, 0), (1, 0, 0)) == (0int, 0int, -1int),
        vcross((0, 0, 1), (0, 1, 0)) == (-1int, 0int, 0int),
        vcross((1, 0, 0), (0, 0, 1)) == (0int, -1int, 0int),
        vdot((1, 0, 0), (0, 1, 0)) == 0,
        vdot((0, 1, 0), (0, 0, 1)) == 0,
        vdot((0, 0, 1), (1, 0, 0)) == 0,
{
}

/// The cross product of two vectors is orthogonal to each of them.
pub proof fn lemma_cross_orthogonal(a: V3, b: V3)
    ensures
        vdot(a, vcross(a, b)) == 0,
        vdot(b, vcross(a, b)) == 0,
{
    assert(vdot(a, vcross(a, b)) == 0) by (nonlinear_arith);
    assert(vdot(b, vcross(a, b)) == 0) by (nonlinear_arith);
}

/// Normalising a vector that already has length `UNIT` gives it back.
pub proof fn lemma_norm_of_unit(v: V3)
    requires
        vlen2(v) == UNIT * UNIT,
    ensures
        norm_spec(v) == v,
{
    assert(is_floor_sqrt(UNIT * UNIT, UNIT as int)) by (nonlinear_arith);
    crate::num::lemma_floor_sqrt_is(UNIT * UNIT, UNIT as int);
    lemma_unscale(v.0);
    lemma_unscale(v.1);
    lemma_unscale(v.2);
}

proof fn lemma_unscale(c: int)
    ensures
        div_trunc(c * UNIT, UNIT as int) == c,
{
    if c >= 0 {
        assert((c * UNIT) / (UNIT as int) == c) by (nonlinear_arith);
    } else {
        assert((-(c * UNIT)) / (UNIT as int) == -c) by (nonlinear_arith);
    }
}

/// A point or displacement with integer components.
#[derive(Clone, Copy, Debug, PartialEq, Eq, Structural)]
pub struct Vec3 {
    pub x: i64,
    pub y: i64,
    pub z: i64,
}

/// Why a vector operation could not produce a result.
#[derive(Clone, Copy, Debug, PartialEq, Eq, Structural)]
pub enum VecError {
    /// The vector to normalise has length zero.
    DivideByZero,
}

impl View for Vec3 {
    type V = V3;

    open spec fn view(&self) -> V3 {
        (self.x as int, self.y as int, self.z as int)
    }
}

proof fn lemma_i64_product(a: i64, b: i64)
    ensures
        -0x4000_0000_0000_0000_0000_0000_0000_0000int <= a * b
            <= 0x4000_0000_0000_0000_0000_0000_0000_0000int,
{
    let ai = a as int;
    let bi = b as int;
    assert(-0x4000_0000_0000_0000_0000_0000_0000_0000int <= ai * bi
        <= 0x4000_0000_0000_0000_0000_0000_0000_0000int) by (nonlinear_arith)
        requires
            -0x8000_0000_0000_0000int <= ai <= 0x8000_0000_0000_0000int,
            -0x8000_0000_0000_0000int <= bi <= 0x8000_0000_0000_0000int,
    ;
}

/// The square of `a`, which always fits in 128 unsigned bits.
fn square(a: i64) -> (r: u128)
    ensures
        r == a * a,
        r <= 0x4000_0000_0000_0000_0000_0000_0000_0000u128,
{
    proof {
        lemma_i64_product(a, a);
        assert(a * a >= 0) by (nonlinear_arith);
    }
    (a as i128 * a as i128) as u128
}

/// Every component of `norm`'s result.
pub open spec fn norm_spec(v: V3) -> V3 {
    let l = floor_sqrt(vlen2(v));
    (div_trunc(v.0 * UNIT, l), div_trunc(v.1 * UNIT, l), div_trunc(v.2 * UNIT, l))
}

/// Distance from `p` to the line through `a` and `b`, rounded down; the
/// distance to `a` where the two coincide.
pub open spec fn line_dist_spec(a: V3, b: V3, p: V3) -> int {
    if a == b {
        floor_sqrt(vlen2(vsub(p, a)))
    } else {
        floor_sqrt(vlen2(vcross(vsub(p, a), vsub(p, b))) / vlen2(vsub(b, a)))
    }
}

proof fn lemma_component_le_len(c: int, n: int, l: int)
    requires
        c * c <= n,
        is_floor_sqrt(n, l),
    ensures
        -l <= c <= l,
{
    assert(-l <= c <= l) by (nonlinear_arith)
        requires
            c * c <= n,
            n < (l + 1) * (l + 1),
            l >= 0,
    ;
}

proof fn lemma_squares_nonneg(a: V3)
    ensures
        a.0 * a.0 >= 0,
        a.1 * a.1 >= 0,
        a.2 * a.2 >= 0,
{
    assert(a.0 * a.0 >= 0 && a.1 * a.1 >= 0 && a.2 * a.2 >= 0) by (nonlinear_arith);
}

/// A vector other than zero has a positive squared length.
pub proof fn lemma_nonzero_len2(a: V3)
    requires
        a != vzero(),
    ensures
        vlen2(a) > 0,
{
    assert(a.0 * a.0 >= 0 && a.1 * a.1 >= 0 && a.2 * a.2 >= 0) by (nonlinear_arith);
    if a.0 != 0 {
        assert(a.0 * a.0 > 0) by (nonlinear_arith)
            requires
                a.0 != 0,
        ;
    } else if a.1 != 0 {
        assert(a.1 * a.1 > 0) by (nonlinear_arith)
            requires
                a.1 != 0,
        ;
    } else {
        assert(a.2 * a.2 > 0) by (nonlinear_arith)
            requires
                a.2 != 0,
        ;
    }
}

/// Products of two numbers bounded by `k` and `m` are bounded by `k*m`.
pub proof fn lemma_mul_bounded(a: int, b: int, k: int, m: int)
    requires
        -k <= a <= k,
        -m <= b <= m,
    ensures
        -(k * m) <= a * b <= k * m,
{
    assert(-(k * m) <= a * b <= k * m) by (nonlinear_arith)
        requires
            -k <= a <= k,
            -m <= b <= m,
    ;
}

/// Every component has magnitude at most `k`.
pub open spec fn bounded(a: V3, k: int) -> bool {
    -k <= a.0 <= k && -k <= a.1 <= k && -k <= a.2 <= k
}

/// Bound on a dot product from bounds on its operands.
pub proof fn lemma_dot_bounded(a: V3, b: V3, k: int, m: int)
    requires
        bounded(a, k),
        bounded(b, m),
    ensures
        -3 * (k * m) <= vdot(a, b) <= 3 * (k * m),
{
    lemma_mul_bounded(a.0, b.0, k, m);
    lemma_mul_bounded(a.1, b.1, k, m);
    lemma_mul_bounded(a.2, b.2, k, m);
}

/// Bound on a cross product from bounds on its operands.
pub proof fn lemma_cross_bounded(a: V3, b: V3, k: int, m: int)
    requires
        bounded(a, k),
        bounded(b, m),
    ensures
        bounded(vcross(a, b), 2 * (k * m)),
{
    lemma_mul_bounded(a.0, b.1, k, m);
    lemma_mul_bounded(a.0, b.2, k, m);
    lemma_mul_bounded(a.1, b.0, k, m);
    lemma_mul_bounded(a.1, b.2, k, m);
    lemma_mul_bounded(a.2, b.0, k, m);
    lemma_mul_bounded(a.2, b.1, k, m);
}

/// The difference of two points of the domain.
pub proof fn lemma_domain_sub(a: V3, b: V3)
    requires
        in_domain(a),
        in_domain(b),
    ensures
        bounded(vsub(a, b), 2 * COORD_LIMIT),
        fits_i64(vsub(a, b)),
{
}

proof fn lemma_domain_cross(a: V3, b: V3)
    requires
        -2 * COORD_LIMIT <= a.0 <= 2 * COORD_LIMIT,
        -2 * COORD_LIMIT <= a.1 <= 2 * COORD_LIMIT,
        -2 * COORD_LIMIT <= a.2 <= 2 * COORD_LIMIT,
        -2 * COORD_LIMIT <= b.0 <= 2 * COORD_LIMIT,
        -2 * COORD_LIMIT <= b.1 <= 2 * COORD_LIMIT,
        -2 * COORD_LIMIT <= b.2 <= 2 * COORD_LIMIT,
    ensures
        fits_i64(vcross(a, b)),
{
    let k: int = 524288;
    assert(k * k == 274877906944) by (nonlinear_arith)
        requires
            k == 524288,
    ;
    lemma_mul_bounded(a.0, b.1, k, k);
    lemma_mul_bounded(a.0, b.2, k, k);
    lemma_mul_bounded(a.1, b.0, k, k);
    lemma_mul_bounded(a.1, b.2, k, k);
    lemma_mul_bounded(a.2, b.0, k, k);
    lemma_mul_bounded(a.2, b.1, k, k);
}

proof fn lemma_floor_quotient_sqrt(num: int, den: int, q: int, r: int)
    requires
        num >= 0,
        den > 0,
        q == num / den,
        is_floor_sqrt(q, r),
    ensures
        r * r * den <= num < (r + 1) * (r + 1) * den,
{
    assert(r * r * den <= num < (r + 1) * (r + 1) * den) by (nonlinear_arith)
        requires
            num >= 0,
            den > 0,
            q == num / den,
            r * r <= q,
            q + 1 <= (r + 1) * (r + 1),
    ;
}

/// `c * UNIT / l`, rounded toward zero, for `|c| <= l`.
fn scale_to_unit(c: i64, l: u64) -> (r: i64)
    requires
        l > 0,
        -l <= c <= l,
    ensures
        r == div_trunc(c * UNIT, l as int),
{
    proof {
        lemma_mul_bounded(c as int, UNIT as int, 0x8000_0000_0000_0000int, UNIT as int);
    }
    let t: i128 = c as i128 * UNIT as i128;
    let q = div_trunc_i128(t, l as i128);
    proof {
        let ti = t as int;
        let li = l as int;
        assert(-UNIT <= div_trunc(ti, li) <= UNIT) by (nonlinear_arith)
            requires
                li > 0,
                -li * UNIT <= ti <= li * UNIT,
                ti >= 0 ==> div_trunc(ti, li) == ti / li,
                ti < 0 ==> div_trunc(ti, li) == -((-ti) / li),
        ;
    }
    q as i64
}

/// `a*b - c*d`, formed in 128 bits so that only the result need fit.
fn cross_term(a: i64, b: i64, c: i64, d: i64) -> (r: i64)
    requires
        i64::MIN <= a * b - c * d <= i64::MAX,
    ensures
        r == a * b - c * d,
{
    proof {
        lemma_i64_product(a, b);
        lemma_i64_product(c, d);
    }
    let p: i128 = a as i128 * b as i128;
    let q: i128 = c as i128 * d as i128;
    (p - q) as i64
}

impl Vec3 {
    pub fn new(x: i64, y: i64, z: i64) -> (r: Vec3)
        ensures
            r@ == (x as int, y as int, z as int),
    {
        Vec3 { x, y, z }
    }

    /// Moves the point by `(x, y, z)`.
    pub fn change_pos(&mut self, x: i64, y: i64, z: i64)
        requires
            fits_i64(vadd(old(self)@, (x as int, y as int, z as int))),
        ensures
            final(self)@ == vadd(old(self)@, (x as int, y as int, z as int)),
    {
        self.x = self.x + x;
        self.y = self.y + y;
        self.z = self.z + z;
    }

    /// Moves the point by `(x, y, z)`; the same as `change_pos`.
    pub fn pos(&mut self, x: i64, y: i64, z: i64)
        requires
            fits_i64(vadd(old(self)@, (x as int, y as int, z as int))),
        ensures
            final(self)@ == vadd(old(self)@, (x as int, y as int, z as int)),
    {
        self.change_pos(x, y, z);
    }

    pub fn add(v1: &Vec3, v2: &Vec3) -> (r: Vec3)
        requires
            fits_i64(vadd(v1@, v2@)),
        ensures
            r@ == vadd(v1@, v2@),
    {
        Vec3 { x: v1.x + v2.x, y: v1.y + v2.y, z: v1.z + v2.z }
    }

    pub fn sub(v1: &Vec3, v2: &Vec3) -> (r: Vec3)
        requires
            fits_i64(vsub(v1@, v2@)),
        ensures
            r@ == vsub(v1@, v2@),
    {
        Vec3 { x: v1.x - v2.x, y: v1.y - v2.y, z: v1.z - v2.z }
    }

    pub fn dot(v1: &Vec3, v2: &Vec3) -> (r: i64)
        requires
            i64::MIN <= vdot(v1@, v2@) <= i64::MAX,
        ensures
            r == vdot(v1@, v2@),
    {
        proof {
            lemma_i64_product(v1.x, v2.x);
            lemma_i64_product(v1.y, v2.y);
            lemma_i64_product(v1.z, v2.z);
        }
        let p: i128 = v1.x as i128 * v2.x as i128;
        let q: i128 = v1.y as i128 * v2.y as i128;
        let s: i128 = v1.z as i128 * v2.z as i128;
        (p + q + s) as i64
    }

    /// Cross product `(y1*z2 - z1*y2, z1*x2 - x1*z2, x1*y2 - y1*x2)`.
    pub fn cross(v1: &Vec3, v2: &Vec3) -> (r: Vec3)
        requires
            fits_i64(vcross(v1@, v2@)),
        ensures
            r@ == vcross(v1@, v2@),
            vdot(v1@, r@) == 0,
            vdot(v2@, r@) == 0,
    {
        proof {
            lemma_cross_orthogonal(v1@, v2@);
        }
        Vec3 {
            x: cross_term(v1.y, v2.z, v1.z, v2.y),
            y: cross_term(v1.z, v2.x, v1.x, v2.z),
            z: cross_term(v1.x, v2.y, v1.y, v2.x),
        }
    }

    pub fn mul(v: &Vec3, f: i64) -> (r: Vec3)
        requires
            fits_i64(vscale(v@, f as int)),
        ensures
            r@ == vscale(v@, f as int),
    {
        Vec3 { x: v.x * f, y: v.y * f, z: v.z * f }
    }

    /// Squared length, which every vector of `i64` components has room for.
    pub fn len2(v: &Vec3) -> (r: u128)
        ensures
            r == vlen2(v@),
    {
        let sx = square(v.x);
        let sy = square(v.y);
        let sz = square(v.z);
        sx + sy + sz
    }

    /// Euclidean length, rounded down.
    pub fn len(v: &Vec3) -> (r: u64)
        ensures
            r == floor_sqrt(vlen2(v@)),
            is_floor_sqrt(vlen2(v@), r as int),
    {
        isqrt(Vec3::len2(v))
    }

    /// The vector scaled to length `UNIT`: each component times `UNIT`,
    /// divided by the rounded-down length and rounded toward zero. A zero
    /// vector has no direction and is refused.
    pub fn norm(v: &Vec3) -> (r: Result<Vec3, VecError>)
        ensures
            v@ == vzero() <==> r is Err,
            r is Err ==> r == Err::<Vec3, VecError>(VecError::DivideByZero),
            r is Ok ==> r->Ok_0@ == norm_spec(v@),
    {
        let n2 = Vec3::len2(v);
        proof {
            lemma_squares_nonneg(v@);
            if v@ != vzero() {
                lemma_nonzero_len2(v@);
            }
        }
        if n2 == 0 {
            return Err(VecError::DivideByZero);
        }
        let l = isqrt(n2);
        proof {
            lemma_component_le_len(v@.0, vlen2(v@), l as int);
            lemma_component_le_len(v@.1, vlen2(v@), l as int);
            lemma_component_le_len(v@.2, vlen2(v@), l as int);
        }
        Ok(
            Vec3 {
                x: scale_to_unit(v.x, l),
                y: scale_to_unit(v.y, l),
                z: scale_to_unit(v.z, l),
            },
        )
    }

    /// Distance from `point` to the line through `a` and `b`, rounded down.
    /// The rounded value `r` satisfies `r*r*|b-a|^2 <= |c|^2 < (r+1)^2*|b-a|^2`,
    /// where `c` is the cross product of `point-a` and `point-b`: `r` is the
    /// floor of the real distance `|c|/|b-a|`. Where `a == b` the line
    /// degenerates to the point `a`, and the distance is to that point.
    pub fn line_dist(a: &Vec3, b: &Vec3, point: &Vec3) -> (r: u64)
        requires
            in_domain(a@),
            in_domain(b@),
            in_domain(point@),
        ensures
            r == line_dist_spec(a@, b@, point@),
            a@ != b@ ==> r * r * vlen2(vsub(b@, a@)) <= vlen2(
                vcross(vsub(point@, a@), vsub(point@, b@)),
            ) < (r + 1) * (r + 1) * vlen2(vsub(b@, a@)),
    {
        let pa = Vec3::sub(point, a);
        if a.x == b.x && a.y == b.y && a.z == b.z {
            return Vec3::len(&pa);
        }
        let pb = Vec3::sub(point, b);
        let ba = Vec3::sub(b, a);
        proof {
            lemma_domain_cross(pa@, pb@);
            lemma_nonzero_len2(ba@);
        }
        let c = Vec3::cross(&pa, &pb);
        let num = Vec3::len2(&c);
        let den = Vec3::len2(&ba);
        let q = num / den;
        let r = isqrt(q);
        proof {
            lemma_floor_quotient_sqrt(num as int, den as int, q as int, r as int);
        }
        r
    }

    /// Dot product formed in 128 bits, for operands whose components have
    /// magnitude at most `2^62`.
    pub fn dot_wide(v1: &Vec3, v2: &Vec3) -> (r: i128)
        requires
            bounded(v1@, 0x4000_0000_0000_0000),
            bounded(v2@, 0x4000_0000_0000_0000),
        ensures
            r == vdot(v1@, v2@),
    {
        proof {
            lemma_dot_bounded(v1@, v2@, 0x4000_0000_0000_0000, 0x4000_0000_0000_0000);
            lemma_mul_bounded(v1.x as int, v2.x as int, 0x4000_0000_0000_0000, 0x4000_0000_0000_0000);
            lemma_mul_bounded(v1.y as int, v2.y as int, 0x4000_0000_0000_0000, 0x4000_0000_0000_0000);
            lemma_mul_bounded(v1.z as int, v2.z as int, 0x4000_0000_0000_0000, 0x4000_0000_0000_0000);
        }
        let p: i128 = v1.x as i128 * v2.x as i128;
        let q: i128 = v1.y as i128 * v2.y as i128;
        let s: i128 = v1.z as i128 * v2.z as i128;
        p + q + s
    }
}

} // verus!
