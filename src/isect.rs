use vstd::prelude::*;

use crate::geometry::{plane_in_domain, Plane, PlaneV};
use crate::num::{div_trunc, div_trunc_i128};
use crate::vec3::{
    bounded, in_domain, lemma_cross_bounded, lemma_domain_sub, lemma_dot_bounded,
    lemma_mul_bounded, vadd, vcross, vdot, vscale, vsub, Vec3, COORD_LIMIT, V3,
};

verus! {

/// A point with 128-bit components. A hit on a plane lies here: a line
/// that meets a plane at a grazing angle can meet it far from the origin.
#[derive(Clone, Copy, Debug, PartialEq, Eq, Structural)]
pub struct WidePoint {
    pub x: i128,
    pub y: i128,
    pub z: i128,
}

impl View for WidePoint {
    type V = V3;

    open spec fn view(&self) -> V3 {
        (self.x as int, self.y as int, self.z as int)
    }
}

impl WidePoint {
    /// The point as a `Vec3` of the coordinate domain, if it lies there.
    pub fn narrow(&self) -> (r: Option<Vec3>)
        ensures
            r is Some <==> in_domain(self@),
            r matches Some(v) ==> v@ == self@,
    {
        if in_range(self.x) && in_range(self.y) && in_range(self.z) {
            Some(Vec3 { x: self.x as i64, y: self.y as i64, z: self.z as i64 })
        } else {
            None
        }
    }
}

/// Where a line meets a plane. The exact meeting point is
/// `origin + (num / den) * (target - origin)` with `den > 0`; `point` is
/// that point with each offset from the origin rounded toward zero.
#[derive(Clone, Copy, Debug, PartialEq, Eq, Structural)]
pub struct Hit {
    pub point: WidePoint,
    pub num: i64,
    pub den: i64,
}

/// A hit as a point and the two terms of its parameter.
pub type HitV = (V3, int, int);

impl View for Hit {
    type V = HitV;

    open spec fn view(&self) -> HitV {
        (self.point@, self.num as int, self.den as int)
    }
}

/// Bound on the two terms of a hit's parameter.
pub const HIT_TERM_LIMIT: i64 = 0x0C00_0000_0000_0000;

/// The view of an optional hit.
pub open spec fn opt_hit_view(r: Option<Hit>) -> Option<HitV> {
    match r {
        Some(h) => Some(h@),
        None => None,
    }
}

/// Normal of a plane: the cross product of its two spanning edges.
pub open spec fn plane_normal(p: PlaneV) -> V3 {
    vcross(vsub(p.1, p.0), vsub(p.2, p.0))
}

/// Where the line through `o` towards `t` meets the bounded plane `p`, if
/// it does. A line parallel to the plane meets it nowhere. Otherwise the
/// exact meeting point `M` must project onto each spanning edge `e` of the
/// plane within `[0, e.e]`; the hit is then `M`, rounded.
pub open spec fn isect_spec(o: V3, t: V3, p: PlaneV) -> Option<HitV> {
    let e1 = vsub(p.1, p.0);
    let e2 = vsub(p.2, p.0);
    let n = plane_normal(p);
    let d = vsub(t, o);
    let nd = vdot(n, d);
    let raw = vdot(n, vsub(p.0, o));
    let num = if nd > 0 {
        raw
    } else {
        -raw
    };
    let den = if nd > 0 {
        nd
    } else {
        -nd
    };
    let w = vsub(o, p.0);
    let u = den * vdot(w, e1) + num * vdot(d, e1);
    let v = den * vdot(w, e2) + num * vdot(d, e2);
    let m = (
        o.0 + div_trunc(d.0 * num, den),
        o.1 + div_trunc(d.1 * num, den),
        o.2 + div_trunc(d.2 * num, den),
    );
    if nd == 0 {
        None
    } else if 0 <= u <= vdot(e1, e1) * den && 0 <= v <= vdot(e2, e2) * den {
        Some((m, num, den))
    } else {
        None
    }
}

proof fn lemma_dot_linear(n: V3, w: V3, d: V3, a: int, b: int)
    ensures
        vdot(n, vadd(vscale(w, a), vscale(d, b))) == a * vdot(n, w) + b * vdot(n, d),
{
    assert(n.0 * (w.0 * a + d.0 * b) == a * (n.0 * w.0) + b * (n.0 * d.0)) by (nonlinear_arith);
    assert(n.1 * (w.1 * a + d.1 * b) == a * (n.1 * w.1) + b * (n.1 * d.1)) by (nonlinear_arith);
    assert(n.2 * (w.2 * a + d.2 * b) == a * (n.2 * w.2) + b * (n.2 * d.2)) by (nonlinear_arith);
    assert(a * vdot(n, w) == a * (n.0 * w.0) + a * (n.1 * w.1) + a * (n.2 * w.2)) by (nonlinear_arith);
    assert(b * vdot(n, d) == b * (n.0 * d.0) + b * (n.1 * d.1) + b * (n.2 * d.2)) by (nonlinear_arith);
}

/// The exact meeting point `o + (num / den) (t - o)` lies in the plane:
/// scaled by `den`, its offset from the first corner is orthogonal to the
/// plane's normal.
pub proof fn lemma_isect_on_plane(o: V3, t: V3, p: PlaneV)
    requires
        isect_spec(o, t, p) is Some,
    ensures
        ({
            let h = isect_spec(o, t, p)->Some_0;
            vdot(plane_normal(p), vadd(vscale(vsub(o, p.0), h.2), vscale(vsub(t, o), h.1))) == 0
        }),
{
    let h = isect_spec(o, t, p)->Some_0;
    let n = plane_normal(p);
    let w = vsub(o, p.0);
    let d = vsub(t, o);
    lemma_dot_linear(n, w, d, h.2, h.1);
    assert(vdot(n, vsub(p.0, o)) == -vdot(n, w)) by (nonlinear_arith)
        requires
            w == vsub(o, p.0),
    ;
    let nw = vdot(n, w);
    let nd = vdot(n, d);
    assert(h.2 * nw + h.1 * nd == 0) by (nonlinear_arith)
        requires
            nd > 0 ==> h.1 == -nw && h.2 == nd,
            nd < 0 ==> h.1 == nw && h.2 == -nd,
            nd != 0,
    ;
}

fn offset(o: i64, d: i64, num: i64, den: i64) -> (r: i128)
    requires
        -2 * COORD_LIMIT <= d <= 2 * COORD_LIMIT,
        -3 * (0x80_0000_0000int * 0x8_0000) <= num <= 3 * (0x80_0000_0000int * 0x8_0000),
        den > 0,
    ensures
        r == o + div_trunc(d * num, den as int),
{
    proof {
        lemma_mul_bounded(d as int, num as int, 2 * COORD_LIMIT, 3 * (0x80_0000_0000int * 0x8_0000));
        assert((2 * COORD_LIMIT) * (3 * (0x80_0000_0000int * 0x8_0000)) < 0x1_0000_0000_0000_0000_0000int);
        let x = d * num;
        let q = div_trunc(x, den as int);
        assert(-0x1_0000_0000_0000_0000_0000int <= q <= 0x1_0000_0000_0000_0000_0000int) by (nonlinear_arith)
            requires
                den >= 1,
                -0x1_0000_0000_0000_0000_0000int <= x <= 0x1_0000_0000_0000_0000_0000int,
                x >= 0 ==> q == x / (den as int),
                x < 0 ==> q == -((-x) / (den as int)),
        ;
    }
    o as i128 + div_trunc_i128(d as i128 * num as i128, den as i128)
}

fn in_range(c: i128) -> (r: bool)
    ensures
        r == (-COORD_LIMIT <= c <= COORD_LIMIT),
{
    -(COORD_LIMIT as i128) <= c && c <= COORD_LIMIT as i128
}

/// Intersects the line through `origin` towards `target` with a bounded
/// plane; see `isect_spec`.
pub fn ray_plane_isect(origin: &Vec3, target: &Vec3, plane: &Plane) -> (r: Option<Hit>)
    requires
        in_domain(origin@),
        in_domain(target@),
        plane_in_domain(plane@),
    ensures
        opt_hit_view(r) == isect_spec(origin@, target@, plane@),
        r matches Some(h) ==> 0 < h.den <= HIT_TERM_LIMIT && -HIT_TERM_LIMIT <= h.num
            <= HIT_TERM_LIMIT,
{
    let ghost k = 2 * COORD_LIMIT;
    proof {
        lemma_domain_sub(plane.s2@, plane.s1@);
        lemma_domain_sub(plane.s3@, plane.s1@);
        lemma_domain_sub(target@, origin@);
        lemma_domain_sub(origin@, plane.s1@);
        lemma_domain_sub(plane.s1@, origin@);
    }
    let e1 = Vec3::sub(&plane.s2, &plane.s1);
    let e2 = Vec3::sub(&plane.s3, &plane.s1);
    let d = Vec3::sub(target, origin);
    let w = Vec3::sub(origin, &plane.s1);
    let so = Vec3::sub(&plane.s1, origin);
    proof {
        lemma_cross_bounded(e1@, e2@, k, k);
        assert(2 * (k * k) == 0x80_0000_0000int) by (nonlinear_arith)
            requires
                k == 524288,
        ;
    }
    let n = Vec3::cross(&e1, &e2);
    let ghost kn = 0x80_0000_0000int;
    proof {
        lemma_dot_bounded(n@, d@, kn, k);
        lemma_dot_bounded(n@, so@, kn, k);
        lemma_dot_bounded(w@, e1@, k, k);
        lemma_dot_bounded(d@, e1@, k, k);
        lemma_dot_bounded(e1@, e1@, k, k);
        lemma_dot_bounded(w@, e2@, k, k);
        lemma_dot_bounded(d@, e2@, k, k);
        lemma_dot_bounded(e2@, e2@, k, k);
    }
    let nd = Vec3::dot(&n, &d);
    if nd == 0 {
        return None;
    }
    let raw = Vec3::dot(&n, &so);
    let (num, den) = if nd > 0 {
        (raw, nd)
    } else {
        (-raw, -nd)
    };
    let we1 = Vec3::dot(&w, &e1);
    let de1 = Vec3::dot(&d, &e1);
    let e1e1 = Vec3::dot(&e1, &e1);
    let we2 = Vec3::dot(&w, &e2);
    let de2 = Vec3::dot(&d, &e2);
    let e2e2 = Vec3::dot(&e2, &e2);
    let ghost bn = 3 * (kn * k);
    assert(bn == HIT_TERM_LIMIT) by (nonlinear_arith)
        requires
            bn == 3 * (kn * k),
            kn == 0x80_0000_0000int,
            k == 524288,
    ;
    let ghost bd = 3 * (k * k);
    proof {
        assert(bn * bd < 0x1_0000_0000_0000_0000_0000_0000_0000int) by (nonlinear_arith)
            requires
                bn == 3 * (0x80_0000_0000int * 524288),
                bd == 3 * (524288int * 524288),
        ;
        assert(bd * bn < 0x1_0000_0000_0000_0000_0000_0000_0000int) by (nonlinear_arith)
            requires
                bn == 3 * (0x80_0000_0000int * 524288),
                bd == 3 * (524288int * 524288),
        ;
        lemma_mul_bounded(den as int, we1 as int, bn, bd);
        lemma_mul_bounded(num as int, de1 as int, bn, bd);
        lemma_mul_bounded(den as int, we2 as int, bn, bd);
        lemma_mul_bounded(num as int, de2 as int, bn, bd);
        lemma_mul_bounded(e1e1 as int, den as int, bd, bn);
        lemma_mul_bounded(e2e2 as int, den as int, bd, bn);
    }
    let u: i128 = den as i128 * we1 as i128 + num as i128 * de1 as i128;
    let v: i128 = den as i128 * we2 as i128 + num as i128 * de2 as i128;
    let ul: i128 = e1e1 as i128 * den as i128;
    let vl: i128 = e2e2 as i128 * den as i128;
    if !(0 <= u && u <= ul && 0 <= v && v <= vl) {
        return None;
    }
    let mx = offset(origin.x, d.x, num, den);
    let my = offset(origin.y, d.y, num, den);
    let mz = offset(origin.z, d.z, num, den);
    Some(Hit { point: WidePoint { x: mx, y: my, z: mz }, num, den })
}

} // verus!
