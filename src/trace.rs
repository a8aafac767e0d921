use vstd::prelude::*;

use crate::geometry::{plane_in_domain, Plane, PlaneV};
use crate::isect::{isect_spec, plane_normal, ray_plane_isect, Hit, HitV, HIT_TERM_LIMIT};
use crate::num::floor_sqrt;
use crate::reflect::{reflect_spec, reflect_wide, NORMAL_LIMIT};
use crate::vec3::{
    in_domain, lemma_cross_bounded, lemma_domain_sub, line_dist_spec, vadd, vdot, vlen2, vsub,
    vzero, Vec3, COORD_LIMIT, V3,
};

verus! {

/// Most reflections that one ray may take.
pub const MAX_BOUNCES: u32 = 20;

/// A directed segment that leaves `origin` towards `target`.
#[derive(Clone, Copy, Debug, PartialEq, Eq, Structural)]
pub struct Ray {
    pub origin: Vec3,
    pub target: Vec3,
}

/// When a path counts as reaching the receiver, and how far a ray may go.
#[derive(Clone, Copy, Debug, PartialEq, Eq, Structural)]
pub struct TraceLimits {
    /// A segment converges when the receiver lies closer than this to its line.
    pub threshold: u64,
    /// A ray is given up once the distance it has travelled reaches this.
    pub cutoff: u64,
}

/// A converged path: its last segment, how close that segment's line comes
/// to the receiver, the length of the path up to the receiver, and the
/// number of reflections before the last segment.
#[derive(Clone, Copy, Debug, PartialEq, Eq, Structural)]
pub struct Candidate {
    pub origin: Vec3,
    pub end: Vec3,
    pub approach: u64,
    pub length: u64,
    pub bounces: u32,
}

/// A candidate's fields, in order.
pub type CandidateV = (V3, V3, int, int, int);

impl View for Candidate {
    type V = CandidateV;

    open spec fn view(&self) -> CandidateV {
        (self.origin@, self.end@, self.approach as int, self.length as int, self.bounces as int)
    }
}

/// The view of each candidate.
pub open spec fn candidate_views(cs: Seq<Candidate>) -> Seq<CandidateV> {
    cs.map_values(|c: Candidate| c@)
}

/// What became of a traced ray.
#[derive(Clone, Copy, Debug, PartialEq, Eq, Structural)]
pub enum Trace {
    /// A segment of the path passed closer to the receiver than the threshold.
    Converged(Candidate),
    /// The ray met no plane ahead and left the scene.
    Escaped,
    /// The ray reached the cutoff distance or the reflection cap.
    Abandoned,
    /// A hit point or a mirrored aim point fell outside the coordinate
    /// domain, where the ray cannot be followed.
    OutOfDomain,
}

/// A traced ray's outcome, over views.
pub enum TraceV {
    Converged(CandidateV),
    Escaped,
    Abandoned,
    OutOfDomain,
}

impl View for Trace {
    type V = TraceV;

    open spec fn view(&self) -> TraceV {
        match self {
            Trace::Converged(c) => TraceV::Converged(c@),
            Trace::Escaped => TraceV::Escaped,
            Trace::Abandoned => TraceV::Abandoned,
            Trace::OutOfDomain => TraceV::OutOfDomain,
        }
    }
}

/// The corners of each plane.
pub open spec fn planes_view(ps: Seq<Plane>) -> Seq<PlaneV> {
    ps.map_values(|p: Plane| p@)
}

/// Every plane lies in the coordinate domain.
pub open spec fn planes_in_domain(ps: Seq<PlaneV>) -> bool {
    forall|i: int| 0 <= i < ps.len() ==> plane_in_domain(#[trigger] ps[i])
}

/// A hit strictly ahead of the origin.
pub open spec fn forward_hit(o: V3, t: V3, p: PlaneV) -> Option<HitV> {
    match isect_spec(o, t, p) {
        Some(h) => if h.1 > 0 {
            Some(h)
        } else {
            None
        },
        None => None,
    }
}

/// Hit `a` lies strictly nearer the origin than hit `b` on the same line.
pub open spec fn closer(a: HitV, b: HitV) -> bool {
    a.1 * b.2 < b.1 * a.2
}

/// Among the first `n` planes, other than the one at `skip`, the one whose
/// forward hit is nearest the origin, with that hit; the lowest index wins a
/// tie.
pub open spec fn nearest_upto(o: V3, t: V3, ps: Seq<PlaneV>, skip: int, n: int) -> Option<
    (int, HitV),
>
    decreases n,
{
    if n <= 0 {
        None
    } else {
        let best = nearest_upto(o, t, ps, skip, n - 1);
        let i = n - 1;
        if i == skip {
            best
        } else {
            match forward_hit(o, t, ps[i]) {
                None => best,
                Some(h) => match best {
                    None => Some((i, h)),
                    Some(b) => if closer(h, b.1) {
                        Some((i, h))
                    } else {
                        best
                    },
                },
            }
        }
    }
}

/// What `nearest_upto` finds is a forward hit of a plane it may choose.
pub proof fn lemma_nearest_found(o: V3, t: V3, ps: Seq<PlaneV>, skip: int, n: int)
    requires
        nearest_upto(o, t, ps, skip, n) is Some,
    ensures
        ({
            let found = nearest_upto(o, t, ps, skip, n)->Some_0;
            0 <= found.0 < n && found.0 != skip && forward_hit(o, t, ps[found.0]) == Some(found.1)
        }),
    decreases n,
{
    if n > 0 && nearest_upto(o, t, ps, skip, n - 1) is Some {
        lemma_nearest_found(o, t, ps, skip, n - 1);
    }
}

/// Where no plane is chosen, no plane it may choose has a forward hit.
pub proof fn lemma_nearest_none(o: V3, t: V3, ps: Seq<PlaneV>, skip: int, n: int, j: int)
    requires
        nearest_upto(o, t, ps, skip, n) is None,
        0 <= j < n,
        j != skip,
    ensures
        forward_hit(o, t, ps[j]) is None,
    decreases n,
{
    if j < n - 1 {
        lemma_nearest_none(o, t, ps, skip, n - 1, j);
    }
}

proof fn lemma_forward_den(o: V3, t: V3, p: PlaneV)
    requires
        forward_hit(o, t, p) is Some,
    ensures
        forward_hit(o, t, p)->Some_0.2 > 0,
{
}

proof fn lemma_closer_trans(a: HitV, b: HitV, c: HitV)
    requires
        a.2 > 0,
        b.2 > 0,
        c.2 > 0,
        closer(a, b),
        !closer(c, b),
    ensures
        closer(a, c),
{
    let (a1, a2, b1, b2, c1, c2) = (a.1, a.2, b.1, b.2, c.1, c.2);
    assert(a1 * c2 < c1 * a2) by (nonlinear_arith)
        requires
            a2 > 0,
            b2 > 0,
            c2 > 0,
            a1 * b2 < b1 * a2,
            c1 * b2 >= b1 * c2,
    ;
}

/// The plane that `nearest_upto` chooses is nearest: no plane it may
/// choose has a forward hit strictly nearer, and every such plane of lower
/// index has one strictly farther, so that ties go to the lowest index.
pub proof fn lemma_nearest_is_nearest(o: V3, t: V3, ps: Seq<PlaneV>, skip: int, n: int, j: int)
    requires
        nearest_upto(o, t, ps, skip, n) is Some,
        0 <= j < n,
        j != skip,
        forward_hit(o, t, ps[j]) is Some,
    ensures
        ({
            let found = nearest_upto(o, t, ps, skip, n)->Some_0;
            let h = forward_hit(o, t, ps[j])->Some_0;
            !closer(h, found.1) && (j < found.0 ==> closer(found.1, h))
        }),
    decreases n,
{
    let found = nearest_upto(o, t, ps, skip, n)->Some_0;
    let h = forward_hit(o, t, ps[j])->Some_0;
    let best = nearest_upto(o, t, ps, skip, n - 1);
    let i = n - 1;
    lemma_nearest_found(o, t, ps, skip, n);
    lemma_forward_den(o, t, ps[j]);
    lemma_forward_den(o, t, ps[found.0]);
    if j < i {
        if best is None {
            lemma_nearest_none(o, t, ps, skip, n - 1, j);
        } else {
            lemma_nearest_is_nearest(o, t, ps, skip, n - 1, j);
            lemma_nearest_found(o, t, ps, skip, n - 1);
            let b = best->Some_0;
            lemma_forward_den(o, t, ps[b.0]);
            if found != b {
                // the plane at `i` displaced `b`, being strictly nearer
                let hi = forward_hit(o, t, ps[i])->Some_0;
                assert(found == (i, hi));
                assert(closer(hi, b.1));
                assert(!closer(h, b.1));
                lemma_closer_trans(hi, b.1, h);
                assert(hi.1 * h.2 < h.1 * hi.2);
                assert(!closer(h, hi)) by (nonlinear_arith)
                    requires
                        hi.1 * h.2 < h.1 * hi.2,
                ;
            }
        }
    } else {
        if best is Some && found == best->Some_0 {
            lemma_nearest_found(o, t, ps, skip, n - 1);
        }
        assert(found.0 <= j);
        if found.0 == j {
            assert(found.1 == h);
            assert(!closer(h, h)) by (nonlinear_arith);
        }
    }
}

/// The index that stands for "no plane".
pub open spec fn skip_index(skip: Option<usize>) -> int {
    match skip {
        Some(i) => i as int,
        None => -1,
    }
}

/// The view of an optional nearest hit.
pub open spec fn opt_nearest_view(r: Option<(usize, Hit)>) -> Option<(int, HitV)> {
    match r {
        Some(p) => Some((p.0 as int, p.1@)),
        None => None,
    }
}

fn hit_closer(a: &Hit, b: &Hit) -> (r: bool)
    requires
        -HIT_TERM_LIMIT <= a.num <= HIT_TERM_LIMIT,
        -HIT_TERM_LIMIT <= b.num <= HIT_TERM_LIMIT,
        0 < a.den <= HIT_TERM_LIMIT,
        0 < b.den <= HIT_TERM_LIMIT,
    ensures
        r == closer(a@, b@),
{
    proof {
        crate::vec3::lemma_mul_bounded(a.num as int, b.den as int, HIT_TERM_LIMIT as int, HIT_TERM_LIMIT as int);
        crate::vec3::lemma_mul_bounded(b.num as int, a.den as int, HIT_TERM_LIMIT as int, HIT_TERM_LIMIT as int);
        assert(HIT_TERM_LIMIT * HIT_TERM_LIMIT < 0x1_0000_0000_0000_0000_0000_0000_0000_0000int) by (nonlinear_arith);
    }
    (a.num as i128) * (b.den as i128) < (b.num as i128) * (a.den as i128)
}

/// Finds, among all planes but the one at `skip`, the one that the line
/// from `origin` towards `target` meets nearest ahead of `origin`.
pub fn nearest_hit(origin: &Vec3, target: &Vec3, planes: &Vec<Plane>, skip: Option<usize>) -> (r:
    Option<(usize, Hit)>)
    requires
        in_domain(origin@),
        in_domain(target@),
        planes_in_domain(planes_view(planes@)),
    ensures
        opt_nearest_view(r) == nearest_upto(
            origin@,
            target@,
            planes_view(planes@),
            skip_index(skip),
            planes@.len() as int,
        ),
        r matches Some(p) ==> p.0 < planes@.len() && 0 < p.1.num && 0 < p.1.den <= HIT_TERM_LIMIT
            && p.1.num <= HIT_TERM_LIMIT,
{
    let ghost ps = planes_view(planes@);
    let mut best: Option<(usize, Hit)> = None;
    let mut i: usize = 0;
    while i < planes.len()
        invariant
            i <= planes@.len(),
            ps == planes_view(planes@),
            planes_in_domain(ps),
            in_domain(origin@),
            in_domain(target@),
            opt_nearest_view(best) == nearest_upto(origin@, target@, ps, skip_index(skip), i as int),
            best matches Some(p) ==> p.0 < i && 0 < p.1.num && 0 < p.1.den <= HIT_TERM_LIMIT
                && p.1.num <= HIT_TERM_LIMIT,
        decreases planes@.len() - i,
    {
        let is_skip = match skip {
            Some(s) => s == i,
            None => false,
        };
        if !is_skip {
            assert(ps[i as int] == planes@[i as int]@);
            let h = ray_plane_isect(origin, target, &planes[i]);
            match h {
                Some(h) => {
                    if h.num > 0 {
                        let better = match &best {
                            None => true,
                            Some(b) => hit_closer(&h, &b.1),
                        };
                        if better {
                            best = Some((i, h));
                        }
                    }
                },
                None => {},
            }
        }
        i = i + 1;
    }
    best
}

/// What becomes of a ray that leaves `o` towards `t`, having travelled
/// `travelled` over `bounces` reflections, the last off the plane at
/// `skip`. It meets the nearest plane ahead other than that one (a straight
/// line that leaves a flat plane does not meet it again); if none, it
/// escapes. A meeting point outside the coordinate domain ends the trace
/// as such. If the receiver lies closer than `threshold` to the line of the
/// segment, the path converges. Otherwise the ray is abandoned once the
/// distance travelled reaches `cutoff` or once it has been reflected
/// `MAX_BOUNCES` times. Else it is mirrored off the plane it met; a mirrored
/// aim point outside the coordinate domain ends the trace as such, and
/// otherwise the ray goes on from the meeting point.
pub open spec fn trace_from(
    o: V3,
    t: V3,
    skip: int,
    travelled: int,
    bounces: int,
    ps: Seq<PlaneV>,
    rx: V3,
    threshold: int,
    cutoff: int,
) -> TraceV
    decreases MAX_BOUNCES - bounces,
{
    if bounces < 0 || bounces >= MAX_BOUNCES {
        TraceV::Abandoned
    } else {
        match nearest_upto(o, t, ps, skip, ps.len() as int) {
            None => TraceV::Escaped,
            Some(found) => {
                let i = found.0;
                let m = found.1.0;
                let ad = line_dist_spec(o, m, rx);
                if !in_domain(m) {
                    TraceV::OutOfDomain
                } else if ad < threshold {
                    TraceV::Converged(
                        (o, m, ad, travelled + floor_sqrt(vlen2(vsub(rx, o))), bounces),
                    )
                } else {
                    let total = travelled + floor_sqrt(vlen2(vsub(m, o)));
                    let nt = vadd(m, reflect_spec(vsub(t, o), plane_normal(ps[i])));
                    if total >= cutoff || bounces + 1 >= MAX_BOUNCES {
                        TraceV::Abandoned
                    } else if !in_domain(nt) {
                        TraceV::OutOfDomain
                    } else {
                        trace_from(m, nt, i, total, bounces + 1, ps, rx, threshold, cutoff)
                    }
                }
            },
        }
    }
}

/// A converged path came closer to the receiver than the threshold, within
/// the reflection cap.
pub proof fn lemma_trace_converged(
    o: V3,
    t: V3,
    skip: int,
    travelled: int,
    bounces: int,
    ps: Seq<PlaneV>,
    rx: V3,
    threshold: int,
    cutoff: int,
)
    requires
        trace_from(o, t, skip, travelled, bounces, ps, rx, threshold, cutoff) is Converged,
    ensures
        ({
            let c = trace_from(o, t, skip, travelled, bounces, ps, rx, threshold, cutoff)->Converged_0;
            c.2 < threshold && 0 <= c.4 < MAX_BOUNCES
        }),
    decreases MAX_BOUNCES - bounces,
{
    if 0 <= bounces < MAX_BOUNCES {
        match nearest_upto(o, t, ps, skip, ps.len() as int) {
            None => {},
            Some(found) => {
                let i = found.0;
                let m = found.1.0;
                if in_domain(m) && line_dist_spec(o, m, rx) >= threshold {
                    let total = travelled + floor_sqrt(vlen2(vsub(m, o)));
                    let nt = vadd(m, reflect_spec(vsub(t, o), plane_normal(ps[i])));
                    if !(total >= cutoff || bounces + 1 >= MAX_BOUNCES || !in_domain(nt)) {
                        lemma_trace_converged(m, nt, i, total, bounces + 1, ps, rx, threshold, cutoff);
                    }
                }
            },
        }
    }
}

fn coord_ok(c: i128) -> (r: bool)
    ensures
        r == (-COORD_LIMIT <= c <= COORD_LIMIT),
{
    -(COORD_LIMIT as i128) <= c && c <= COORD_LIMIT as i128
}

proof fn lemma_hop_bound(a: V3, b: V3, l: int)
    requires
        in_domain(a),
        in_domain(b),
        l == floor_sqrt(vlen2(vsub(a, b))),
        crate::num::is_floor_sqrt(vlen2(vsub(a, b)), l),
    ensures
        l < 0x10_0000,
{
    let v = vsub(a, b);
    crate::vec3::lemma_dot_bounded(v, v, 2 * COORD_LIMIT, 2 * COORD_LIMIT);
    let n = vlen2(v);
    assert(l < 0x10_0000) by (nonlinear_arith)
        requires
            l >= 0,
            l * l <= n,
            n <= 3 * ((2 * COORD_LIMIT) * (2 * COORD_LIMIT)),
    ;
}

/// Follows one ray through the scene towards the receiver; see
/// `trace_from`.
pub fn trace_ray(ray: &Ray, planes: &Vec<Plane>, receiver: &Vec3, limits: &TraceLimits) -> (r:
    Trace)
    requires
        in_domain(ray.origin@),
        in_domain(ray.target@),
        in_domain(receiver@),
        planes_in_domain(planes_view(planes@)),
    ensures
        r@ == trace_from(
            ray.origin@,
            ray.target@,
            -1,
            0,
            0,
            planes_view(planes@),
            receiver@,
            limits.threshold as int,
            limits.cutoff as int,
        ),
        r matches Trace::Converged(c) ==> c.approach < limits.threshold && c.bounces < MAX_BOUNCES,
{
    proof {
        if trace_from(
            ray.origin@,
            ray.target@,
            -1,
            0,
            0,
            planes_view(planes@),
            receiver@,
            limits.threshold as int,
            limits.cutoff as int,
        ) is Converged {
            lemma_trace_converged(
                ray.origin@,
                ray.target@,
                -1,
                0,
                0,
                planes_view(planes@),
                receiver@,
                limits.threshold as int,
                limits.cutoff as int,
            );
        }
    }
    let ghost ps = planes_view(planes@);
    let ghost goal = trace_from(
        ray.origin@,
        ray.target@,
        -1,
        0,
        0,
        ps,
        receiver@,
        limits.threshold as int,
        limits.cutoff as int,
    );
    let mut o = ray.origin;
    let mut t = ray.target;
    let mut skip: Option<usize> = None;
    let mut travelled: u64 = 0;
    let mut bounces: u32 = 0;
    loop
        invariant
            ps == planes_view(planes@),
            goal == trace_from(
                ray.origin@,
                ray.target@,
                -1,
                0,
                0,
                ps,
                receiver@,
                limits.threshold as int,
                limits.cutoff as int,
            ),
            planes_in_domain(ps),
            in_domain(receiver@),
            in_domain(o@),
            in_domain(t@),
            bounces < MAX_BOUNCES,
            travelled <= bounces * 0x10_0000,
            skip matches Some(s) ==> s < planes@.len(),
            goal == trace_from(
                o@,
                t@,
                skip_index(skip),
                travelled as int,
                bounces as int,
                ps,
                receiver@,
                limits.threshold as int,
                limits.cutoff as int,
            ),
        decreases MAX_BOUNCES - bounces,
    {
        assert(ps.len() == planes@.len());
        let found = nearest_hit(&o, &t, planes, skip);
        match found {
            None => {
                return Trace::Escaped;
            },
            Some((i, h)) => {
                let m = match h.point.narrow() {
                    Some(m) => m,
                    None => {
                        return Trace::OutOfDomain;
                    },
                };
                let ad = Vec3::line_dist(&o, &m, receiver);
                if ad < limits.threshold {
                    proof {
                        lemma_domain_sub(receiver@, o@);
                    }
                    let to_rx = Vec3::len(&Vec3::sub(receiver, &o));
                    proof {
                        crate::num::lemma_floor_sqrt_is(vlen2(vsub(receiver@, o@)), to_rx as int);
                        lemma_hop_bound(receiver@, o@, to_rx as int);
                    }
                    return Trace::Converged(
                        Candidate { origin: o, end: m, approach: ad, length: travelled + to_rx, bounces },
                    );
                }
                proof {
                    lemma_domain_sub(m@, o@);
                }
                let hop = Vec3::len(&Vec3::sub(&m, &o));
                proof {
                    crate::num::lemma_floor_sqrt_is(vlen2(vsub(m@, o@)), hop as int);
                    lemma_hop_bound(m@, o@, hop as int);
                }
                let total = travelled + hop;
                if total >= limits.cutoff || bounces + 1 >= MAX_BOUNCES {
                    return Trace::Abandoned;
                }
                let p = &planes[i];
                assert(ps[i as int] == p@);
                proof {
                    lemma_domain_sub(p.s2@, p.s1@);
                    lemma_domain_sub(p.s3@, p.s1@);
                    lemma_domain_sub(t@, o@);
                }
                let e1 = Vec3::sub(&p.s2, &p.s1);
                let e2 = Vec3::sub(&p.s3, &p.s1);
                proof {
                    lemma_cross_bounded(e1@, e2@, 2 * COORD_LIMIT, 2 * COORD_LIMIT);
                    assert(2 * ((2 * COORD_LIMIT) * (2 * COORD_LIMIT)) == NORMAL_LIMIT) by (nonlinear_arith);
                }
                let n = Vec3::cross(&e1, &e2);
                let d = Vec3::sub(&t, &o);
                proof {
                    lemma_nearest_found(o@, t@, ps, skip_index(skip), ps.len() as int);
                    assert(plane_normal(ps[i as int]) == n@);
                    if n@ == vzero() {
                        assert(vdot(n@, d@) == 0);
                        assert(isect_spec(o@, t@, ps[i as int]) is None);
                    }
                }
                let (rx, ry, rz) = reflect_wide(&d, &n);
                let nx: i128 = m.x as i128 + rx;
                let ny: i128 = m.y as i128 + ry;
                let nz: i128 = m.z as i128 + rz;
                if !(coord_ok(nx) && coord_ok(ny) && coord_ok(nz)) {
                    return Trace::OutOfDomain;
                }
                o = m;
                t = Vec3 { x: nx as i64, y: ny as i64, z: nz as i64 };
                skip = Some(i);
                travelled = total;
                bounces = bounces + 1;
            },
        }
    }
}

} // verus!
