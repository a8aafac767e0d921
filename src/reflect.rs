use vstd::prelude::*;

use vstd::arithmetic::div_mod::{lemma_div_by_multiple, lemma_fundamental_div_mod};

use crate::num::{div_trunc, div_trunc_i128};
use crate::vec3::{
    bounded, fits_i64, lemma_dot_bounded, lemma_mul_bounded, lemma_nonzero_len2, vadd, vdot, vscale,
    vsub, vzero, Vec3, COORD_LIMIT, V3,
};

verus! {

/// Largest magnitude of a component of a normal that `reflect` takes: the
/// bound on the cross product of two edges of a plane of the domain.
pub const NORMAL_LIMIT: i64 = 0x80_0000_0000;

/// `d` mirrored about the plane with normal `n`, times `n.n`:
/// `(n.n) d - 2 (d.n) n`. It needs no division.
pub open spec fn reflect_scaled(d: V3, n: V3) -> V3 {
    vsub(vscale(d, vdot(n, n)), vscale(n, 2 * vdot(d, n)))
}

/// `d` mirrored about the plane with normal `n`: `d - 2 (d.n)/(n.n) n`,
/// each component rounded toward zero.
pub open spec fn reflect_spec(d: V3, n: V3) -> V3 {
    let k = vdot(n, n);
    let s = reflect_scaled(d, n);
    (div_trunc(s.0, k), div_trunc(s.1, k), div_trunc(s.2, k))
}

/// `n.n` divides every component of `reflect_scaled(d, n)`: the mirrored
/// direction has integer components and no rounding takes place.
pub open spec fn reflects_exactly(d: V3, n: V3) -> bool {
    let k = vdot(n, n);
    let s = reflect_scaled(d, n);
    s.0 % k == 0 && s.1 % k == 0 && s.2 % k == 0
}

proof fn lemma_div_trunc_exact(x: int, k: int)
    requires
        k > 0,
        x % k == 0,
    ensures
        div_trunc(x, k) * k == x,
{
    lemma_fundamental_div_mod(x, k);
    let q = x / k;
    assert(q * k == x) by (nonlinear_arith)
        requires
            x == k * q,
    ;
    if x < 0 {
        assert(q < 0) by (nonlinear_arith)
            requires
                x == k * q,
                k > 0,
                x < 0,
        ;
        assert(-x == (-q) * k) by (nonlinear_arith)
            requires
                x == k * q,
        ;
        lemma_div_by_multiple(-q, k);
    }
}

/// `(d p - n q) . n == p (d . n) - q (n . n)`, written out.
proof fn lemma_dot_combo(d0: int, d1: int, d2: int, n0: int, n1: int, n2: int, p: int, q: int)
    ensures
        (d0 * p - n0 * q) * n0 + (d1 * p - n1 * q) * n1 + (d2 * p - n2 * q) * n2 == p * (d0 * n0
            + d1 * n1 + d2 * n2) - q * (n0 * n0 + n1 * n1 + n2 * n2),
{
    lemma_combo_term(d0, n0, p, q);
    lemma_combo_term(d1, n1, p, q);
    lemma_combo_term(d2, n2, p, q);
    assert(p * (d0 * n0 + d1 * n1 + d2 * n2) == p * (d0 * n0) + p * (d1 * n1) + p * (d2 * n2))
        by (nonlinear_arith);
    assert(q * (n0 * n0 + n1 * n1 + n2 * n2) == q * (n0 * n0) + q * (n1 * n1) + q * (n2 * n2))
        by (nonlinear_arith);
}

proof fn lemma_combo_term(d: int, n: int, p: int, q: int)
    ensures
        (d * p - n * q) * n == p * (d * n) - q * (n * n),
{
    assert((d * p - n * q) * n == p * (d * n) - q * (n * n)) by (nonlinear_arith);
}

proof fn lemma_swap3(a: int, b: int, c: int)
    ensures
        (a * b) * c == (a * c) * b,
{
    assert((a * b) * c == (a * c) * b) by (nonlinear_arith);
}

/// `k (k d - 2 a n) - 2 (-k a) n == (k k) d`, one component.
proof fn lemma_twice_component(d: int, n: int, k: int, a: int)
    ensures
        k * (d * k - n * (2 * a)) - n * (2 * (-(k * a))) == d * (k * k),
{
    assert(k * (d * k - n * (2 * a)) - n * (2 * (-(k * a))) == d * (k * k)) by (nonlinear_arith);
}

/// Mirroring twice about the same normal, without division, gives the
/// original direction scaled by `(n.n)^2`.
pub proof fn lemma_reflect_scaled_twice(d: V3, n: V3)
    ensures
        reflect_scaled(reflect_scaled(d, n), n) == vscale(d, vdot(n, n) * vdot(n, n)),
{
    let k = vdot(n, n);
    let a = vdot(d, n);
    let r = reflect_scaled(d, n);
    lemma_dot_combo(d.0, d.1, d.2, n.0, n.1, n.2, k, 2 * a);
    assert(k * a - (2 * a) * k == -(k * a)) by (nonlinear_arith);
    assert(vdot(r, n) == -(k * a));
    lemma_twice_component(d.0, n.0, k, a);
    lemma_twice_component(d.1, n.1, k, a);
    lemma_twice_component(d.2, n.2, k, a);
    assert(r.0 * k == k * r.0 && r.1 * k == k * r.1 && r.2 * k == k * r.2) by (nonlinear_arith);
}

/// The mirrored direction is specular: its component along the normal is
/// negated, and its length is kept (all up to the factor `n.n`).
pub proof fn lemma_reflect_specular(d: V3, n: V3)
    ensures
        vdot(reflect_scaled(d, n), n) == -(vdot(n, n) * vdot(d, n)),
        vdot(reflect_scaled(d, n), reflect_scaled(d, n)) == (vdot(n, n) * vdot(n, n)) * vdot(d, d),
{
    let k = vdot(n, n);
    let a = vdot(d, n);
    let r = reflect_scaled(d, n);
    lemma_dot_combo(d.0, d.1, d.2, n.0, n.1, n.2, k, 2 * a);
    assert(k * a - (2 * a) * k == -(k * a)) by (nonlinear_arith);
    let dd = vdot(d, d);
    lemma_lin(d, n, d, k, 2 * a);
    lemma_dot_comm(n, d);
    assert(vdot(r, d) == k * dd - (2 * a) * a);
    lemma_lin(d, n, r, k, 2 * a);
    lemma_dot_comm(d, r);
    lemma_dot_comm(n, r);
    assert(vdot(r, r) == k * vdot(r, d) - (2 * a) * vdot(r, n));
    assert(k * (k * dd - (2 * a) * a) - (2 * a) * (-(k * a)) == (k * k) * dd) by (nonlinear_arith);
}

proof fn lemma_dot_comm(x: V3, y: V3)
    ensures
        vdot(x, y) == vdot(y, x),
{
    assert(x.0 * y.0 == y.0 * x.0 && x.1 * y.1 == y.1 * x.1 && x.2 * y.2 == y.2 * x.2)
        by (nonlinear_arith);
}

/// `(p x - q y) . z == p (x . z) - q (y . z)`.
proof fn lemma_lin(x: V3, y: V3, z: V3, p: int, q: int)
    ensures
        vdot(vsub(vscale(x, p), vscale(y, q)), z) == p * vdot(x, z) - q * vdot(y, z),
{
    assert((x.0 * p - y.0 * q) * z.0 == p * (x.0 * z.0) - q * (y.0 * z.0)) by (nonlinear_arith);
    assert((x.1 * p - y.1 * q) * z.1 == p * (x.1 * z.1) - q * (y.1 * z.1)) by (nonlinear_arith);
    assert((x.2 * p - y.2 * q) * z.2 == p * (x.2 * z.2) - q * (y.2 * z.2)) by (nonlinear_arith);
    assert(p * vdot(x, z) == p * (x.0 * z.0) + p * (x.1 * z.1) + p * (x.2 * z.2)) by (nonlinear_arith);
    assert(q * vdot(y, z) == q * (y.0 * z.0) + q * (y.1 * z.1) + q * (y.2 * z.2)) by (nonlinear_arith);
}

/// Mirroring about a plane perpendicular to an axis is exact: it only
/// negates one component.
pub proof fn lemma_axis_reflects_exactly(d: V3, n: V3)
    requires
        n != vzero(),
        (n.0 == 0 && n.1 == 0) || (n.1 == 0 && n.2 == 0) || (n.0 == 0 && n.2 == 0),
    ensures
        reflects_exactly(d, n),
        reflect_spec(d, n) == (if n.0 != 0 {
            -d.0
        } else {
            d.0
        }, if n.1 != 0 {
            -d.1
        } else {
            d.1
        }, if n.2 != 0 {
            -d.2
        } else {
            d.2
        }),
{
    let k = vdot(n, n);
    lemma_nonzero_len2(n);
    let s = reflect_scaled(d, n);
    lemma_axis_component(d.0, n.0, k, vdot(d, n), n.0 != 0);
    lemma_axis_component(d.1, n.1, k, vdot(d, n), n.1 != 0);
    lemma_axis_component(d.2, n.2, k, vdot(d, n), n.2 != 0);
    if n.0 != 0 {
        assert(k == n.0 * n.0 && vdot(d, n) == d.0 * n.0);
    } else if n.1 != 0 {
        assert(k == n.1 * n.1 && vdot(d, n) == d.1 * n.1);
    } else {
        assert(k == n.2 * n.2 && vdot(d, n) == d.2 * n.2);
    }
}

/// One component of an axis mirroring: negated on the axis, kept off it.
proof fn lemma_axis_component(dc: int, nc: int, k: int, a: int, on_axis: bool)
    requires
        k > 0,
        on_axis ==> k == nc * nc && a == dc * nc,
        !on_axis ==> nc == 0,
    ensures
        (dc * k - nc * (2 * a)) % k == 0,
        div_trunc(dc * k - nc * (2 * a), k) == if on_axis {
            -dc
        } else {
            dc
        },
{
    let x = dc * k - nc * (2 * a);
    let want = if on_axis {
        -dc
    } else {
        dc
    };
    assert(x == want * k) by (nonlinear_arith)
        requires
            x == dc * k - nc * (2 * a),
            on_axis ==> k == nc * nc && a == dc * nc,
            !on_axis ==> nc == 0,
            want == if on_axis {
                -dc
            } else {
                dc
            },
    ;
    assert(x % k == 0 && div_trunc(x, k) == want) by (nonlinear_arith)
        requires
            k > 0,
            x == want * k,
    ;
}

/// Mirroring a direction about a plane and mirroring the result again about
/// the same plane gives the original direction back, wherever the first
/// mirroring is exact.
pub proof fn lemma_reflect_twice(d: V3, n: V3)
    requires
        n != vzero(),
        reflects_exactly(d, n),
    ensures
        reflect_spec(reflect_spec(d, n), n) == d,
{
    let k = vdot(n, n);
    lemma_nonzero_len2(n);
    let s = reflect_scaled(d, n);
    let r = reflect_spec(d, n);
    lemma_div_trunc_exact(s.0, k);
    lemma_div_trunc_exact(s.1, k);
    lemma_div_trunc_exact(s.2, k);
    assert(vscale(r, k) == s);
    let a = vdot(d, n);
    lemma_dot_combo(d.0, d.1, d.2, n.0, n.1, n.2, k, 2 * a);
    lemma_swap3(r.0, n.0, k);
    lemma_swap3(r.1, n.1, k);
    lemma_swap3(r.2, n.2, k);
    assert(vdot(r, n) * k == (r.0 * n.0) * k + (r.1 * n.1) * k + (r.2 * n.2) * k) by (nonlinear_arith);
    assert(vdot(r, n) * k == vdot(vscale(r, k), n));
    assert(k * a - (2 * a) * k == -a * k) by (nonlinear_arith);
    assert(vdot(r, n) == -a) by (nonlinear_arith)
        requires
            k > 0,
            vdot(r, n) * k == -a * k,
    ;
    let t = reflect_scaled(r, n);
    assert(t.0 == d.0 * k && t.1 == d.1 * k && t.2 == d.2 * k) by (nonlinear_arith)
        requires
            t == vsub(vscale(r, k), vscale(n, 2 * vdot(r, n))),
            vdot(r, n) == -a,
            r.0 * k == d.0 * k - n.0 * (2 * a),
            r.1 * k == d.1 * k - n.1 * (2 * a),
            r.2 * k == d.2 * k - n.2 * (2 * a),
    ;
    assert(div_trunc(d.0 * k, k) == d.0) by (nonlinear_arith)
        requires
            k > 0,
    ;
    assert(div_trunc(d.1 * k, k) == d.1) by (nonlinear_arith)
        requires
            k > 0,
    ;
    assert(div_trunc(d.2 * k, k) == d.2) by (nonlinear_arith)
        requires
            k > 0,
    ;
}

/// Rounding toward zero moves a quotient by less than one.
proof fn lemma_trunc_close(x: int, k: int)
    requires
        k > 0,
    ensures
        -k < k * div_trunc(x, k) - x < k,
{
    lemma_fundamental_div_mod(x, k);
    if x < 0 {
        lemma_fundamental_div_mod(-x, k);
        assert(-k < k * (-((-x) / k)) - x < k) by (nonlinear_arith)
            requires
                k > 0,
                -x == k * ((-x) / k) + (-x) % k,
                0 <= (-x) % k < k,
        ;
    } else {
        assert(-k < k * (x / k) - x < k) by (nonlinear_arith)
            requires
                k > 0,
                x == k * (x / k) + x % k,
                0 <= x % k < k,
        ;
    }
}

/// `reflect_scaled` is linear in the direction.
proof fn lemma_reflect_scaled_linear(a: V3, b: V3, c: int, n: V3)
    ensures
        reflect_scaled(vadd(vscale(a, c), b), n) == vadd(
            vscale(reflect_scaled(a, n), c),
            reflect_scaled(b, n),
        ),
{
    let k = vdot(n, n);
    let x = vadd(vscale(a, c), b);
    let p = vdot(a, n);
    let q = vdot(b, n);
    lemma_lin_term(a.0, b.0, c, n.0);
    lemma_lin_term(a.1, b.1, c, n.1);
    lemma_lin_term(a.2, b.2, c, n.2);
    lemma_distrib3(c, a.0 * n.0, a.1 * n.1, a.2 * n.2);
    assert(vdot(x, n) == c * p + q);
    lemma_refl_comp(a.0, b.0, c, k, n.0, p, q);
    lemma_refl_comp(a.1, b.1, c, k, n.1, p, q);
    lemma_refl_comp(a.2, b.2, c, k, n.2, p, q);
}

proof fn lemma_lin_term(a: int, b: int, c: int, n: int)
    ensures
        (a * c + b) * n == c * (a * n) + b * n,
{
    assert((a * c + b) * n == c * (a * n) + b * n) by (nonlinear_arith);
}

proof fn lemma_distrib3(c: int, p0: int, p1: int, p2: int)
    ensures
        c * (p0 + p1 + p2) == c * p0 + c * p1 + c * p2,
{
    assert(c * (p0 + p1 + p2) == c * p0 + c * p1 + c * p2) by (nonlinear_arith);
}

proof fn lemma_refl_comp(ai: int, bi: int, c: int, k: int, ni: int, p: int, q: int)
    ensures
        (ai * c + bi) * k - ni * (2 * (c * p + q)) == (ai * k - ni * (2 * p)) * c + (bi * k - ni
            * (2 * q)),
{
    assert((ai * c + bi) * k - ni * (2 * (c * p + q)) == (ai * k - ni * (2 * p)) * c + (bi * k
        - ni * (2 * q))) by (nonlinear_arith);
}

/// A component whose square is below `3 k^4` is below `2 k^2` in magnitude.
proof fn lemma_component_small(f: int, sum: int, k: int)
    requires
        k > 0,
        f * f <= sum,
        sum < 3 * ((k * k) * (k * k)),
    ensures
        -2 * (k * k) < f < 2 * (k * k),
{
    let kk = k * k;
    assert(kk > 0) by (nonlinear_arith)
        requires
            k > 0,
            kk == k * k,
    ;
    assert(-2 * kk < f < 2 * kk) by (nonlinear_arith)
        requires
            kk > 0,
            f * f < 3 * (kk * kk),
    ;
}

/// Mirroring twice about the same plane, rounding each time, gives the
/// original direction back to within two in every component.
pub proof fn lemma_reflect_twice_close(d: V3, n: V3)
    requires
        n != vzero(),
    ensures
        -2 <= reflect_spec(reflect_spec(d, n), n).0 - d.0 <= 2,
        -2 <= reflect_spec(reflect_spec(d, n), n).1 - d.1 <= 2,
        -2 <= reflect_spec(reflect_spec(d, n), n).2 - d.2 <= 2,
{
    let k = vdot(n, n);
    lemma_nonzero_len2(n);
    let big = reflect_scaled(d, n);
    let r = reflect_spec(d, n);
    lemma_trunc_close(big.0, k);
    lemma_trunc_close(big.1, k);
    lemma_trunc_close(big.2, k);
    // the rounding error of the first mirroring, times k
    let e = vsub(vscale(r, k), big);
    assert(r.0 * k == k * r.0 && r.1 * k == k * r.1 && r.2 * k == k * r.2) by (nonlinear_arith);
    assert(-k < e.0 < k && -k < e.1 < k && -k < e.2 < k);
    // k times the second mirroring is k^2 d plus the mirrored error
    let r2 = reflect_scaled(r, n);
    lemma_reflect_scaled_linear(r, vzero(), k, n);
    assert(vadd(vscale(r, k), vzero()) == vadd(vscale(big, 1), e));
    lemma_reflect_scaled_linear(big, e, 1, n);
    assert(reflect_scaled(vzero(), n) == vzero()) by (nonlinear_arith);
    lemma_reflect_scaled_twice(d, n);
    let f = reflect_scaled(e, n);
    assert(vscale(r2, k) == vadd(vscale(d, k * k), f)) by (nonlinear_arith)
        requires
            vadd(vscale(r2, k), vzero()) == vadd(vscale(reflect_scaled(big, n), 1), f),
            reflect_scaled(big, n) == vscale(d, k * k),
    ;
    // the mirrored error keeps its length
    lemma_reflect_specular(e, n);
    assert(vdot(e, e) < 3 * (k * k)) by (nonlinear_arith)
        requires
            -k < e.0 < k,
            -k < e.1 < k,
            -k < e.2 < k,
    ;
    assert(vdot(f, f) < 3 * ((k * k) * (k * k))) by (nonlinear_arith)
        requires
            vdot(f, f) == (k * k) * vdot(e, e),
            vdot(e, e) < 3 * (k * k),
            k > 0,
    ;
    assert(f.0 * f.0 >= 0 && f.1 * f.1 >= 0 && f.2 * f.2 >= 0) by (nonlinear_arith);
    lemma_component_small(f.0, vdot(f, f), k);
    lemma_component_small(f.1, vdot(f, f), k);
    lemma_component_small(f.2, vdot(f, f), k);
    lemma_trunc_close(r2.0, k);
    lemma_trunc_close(r2.1, k);
    lemma_trunc_close(r2.2, k);
    let res = reflect_spec(r, n);
    lemma_twice_close_component(res.0, r2.0, d.0, f.0, k);
    lemma_twice_close_component(res.1, r2.1, d.1, f.1, k);
    lemma_twice_close_component(res.2, r2.2, d.2, f.2, k);
}

proof fn lemma_twice_close_component(res: int, r2: int, d: int, f: int, k: int)
    requires
        k > 0,
        -k < k * res - r2 < k,
        r2 * k == d * (k * k) + f,
        -2 * (k * k) < f < 2 * (k * k),
    ensures
        -2 <= res - d <= 2,
{
    assert(-2 * k < r2 - d * k < 2 * k) by (nonlinear_arith)
        requires
            k > 0,
            r2 * k == d * (k * k) + f,
            -2 * (k * k) < f < 2 * (k * k),
    ;
    assert(-3 < res - d < 3) by (nonlinear_arith)
        requires
            k > 0,
            -k < k * res - r2 < k,
            -2 * k < r2 - d * k < 2 * k,
    ;
}

/// One component of `reflect_scaled`, with its division by `k`.
fn reflect_component(dc: i64, nc: i64, k: i128, a: i128) -> (r: i128)
    requires
        -2 * COORD_LIMIT <= dc <= 2 * COORD_LIMIT,
        -NORMAL_LIMIT <= nc <= NORMAL_LIMIT,
        0 < k <= 3 * (NORMAL_LIMIT * NORMAL_LIMIT),
        -3 * (NORMAL_LIMIT * (2 * COORD_LIMIT)) <= a <= 3 * (NORMAL_LIMIT * (2 * COORD_LIMIT)),
    ensures
        r == div_trunc(dc * k - nc * (2 * a), k as int),
        -0x1_0000_0000_0000_0000_0000_0000_0000int <= r <= 0x1_0000_0000_0000_0000_0000_0000_0000int,
{
    proof {
        lemma_mul_bounded(dc as int, k as int, 2 * COORD_LIMIT, 3 * (NORMAL_LIMIT * NORMAL_LIMIT));
        lemma_mul_bounded(
            nc as int,
            2 * a,
            NORMAL_LIMIT as int,
            6 * (NORMAL_LIMIT * (2 * COORD_LIMIT)),
        );
        assert((2 * COORD_LIMIT) * (3 * (NORMAL_LIMIT * NORMAL_LIMIT))
            < 0x8000_0000_0000_0000_0000_0000_0000int) by (nonlinear_arith);
        assert(NORMAL_LIMIT * (6 * (NORMAL_LIMIT * (2 * COORD_LIMIT)))
            < 0x8000_0000_0000_0000_0000_0000_0000int) by (nonlinear_arith);
        let x = dc * k - nc * (2 * a);
        let q = div_trunc(x, k as int);
        assert(-x <= q <= x || x <= q <= -x) by (nonlinear_arith)
            requires
                k >= 1,
                x >= 0 ==> q == x / (k as int),
                x < 0 ==> q == -((-x) / (k as int)),
        ;
    }
    let x: i128 = dc as i128 * k - nc as i128 * (2 * a);
    div_trunc_i128(x, k)
}

/// `reflect_spec` formed in 128 bits.
pub(crate) fn reflect_wide(d: &Vec3, n: &Vec3) -> (r: (i128, i128, i128))
    requires
        bounded(d@, 2 * COORD_LIMIT),
        bounded(n@, NORMAL_LIMIT as int),
        n@ != vzero(),
    ensures
        (r.0 as int, r.1 as int, r.2 as int) == reflect_spec(d@, n@),
        -0x1_0000_0000_0000_0000_0000_0000_0000int <= r.0 <= 0x1_0000_0000_0000_0000_0000_0000_0000int,
        -0x1_0000_0000_0000_0000_0000_0000_0000int <= r.1 <= 0x1_0000_0000_0000_0000_0000_0000_0000int,
        -0x1_0000_0000_0000_0000_0000_0000_0000int <= r.2 <= 0x1_0000_0000_0000_0000_0000_0000_0000int,
{
    proof {
        lemma_nonzero_len2(n@);
        lemma_dot_bounded(n@, n@, NORMAL_LIMIT as int, NORMAL_LIMIT as int);
        lemma_dot_bounded(d@, n@, 2 * COORD_LIMIT, NORMAL_LIMIT as int);
        assert(NORMAL_LIMIT * (2 * COORD_LIMIT) == (2 * COORD_LIMIT) * NORMAL_LIMIT) by (nonlinear_arith);
    }
    let k = Vec3::dot_wide(n, n);
    let a = Vec3::dot_wide(d, n);
    (
        reflect_component(d.x, n.x, k, a),
        reflect_component(d.y, n.y, k, a),
        reflect_component(d.z, n.z, k, a),
    )
}

/// Mirrors the direction `d` about the plane with normal `n`; see
/// `reflect_spec`.
pub fn reflect(d: &Vec3, n: &Vec3) -> (r: Vec3)
    requires
        bounded(d@, 2 * COORD_LIMIT),
        bounded(n@, NORMAL_LIMIT as int),
        n@ != vzero(),
        fits_i64(reflect_spec(d@, n@)),
    ensures
        r@ == reflect_spec(d@, n@),
{
    let (x, y, z) = reflect_wide(d, n);
    Vec3 { x: x as i64, y: y as i64, z: z as i64 }
}

} // verus!
