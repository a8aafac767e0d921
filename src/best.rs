use vstd::prelude::*;

use crate::geometry::{Plane, PlaneV};
use crate::rays::{ray_view, ray_views};
use crate::trace::{
    candidate_views, planes_in_domain, planes_view, trace_from, trace_ray, Candidate, CandidateV,
    Ray, Trace, TraceLimits, TraceV,
};
use crate::vec3::{in_domain, Vec3, V3};

verus! {

/// How many paths a best-path set keeps.
pub const BEST_CAPACITY: usize = 3;

/// The candidates' closest approaches never decrease along the sequence.
pub open spec fn sorted_by_approach(s: Seq<CandidateV>) -> bool {
    forall|i: int, j: int| 0 <= i < j < s.len() ==> s[i].2 <= s[j].2
}

/// Where a candidate with closest approach `key` goes: after every entry
/// that is not farther than it.
pub open spec fn insert_at(s: Seq<CandidateV>, key: int) -> int
    decreases s.len(),
{
    if s.len() == 0 {
        0
    } else if key < s[0].2 {
        0
    } else {
        1 + insert_at(s.drop_first(), key)
    }
}

/// The set after offering it `c`: `c` is placed after the entries that are
/// not farther than it, and the set keeps its `BEST_CAPACITY` nearest. A
/// full set thus changes only when `c` is strictly nearer than its worst
/// entry, which `c` then displaces.
pub open spec fn best_insert(s: Seq<CandidateV>, c: CandidateV) -> Seq<CandidateV> {
    let p = insert_at(s, c.2);
    let t = s.take(p).push(c) + s.skip(p);
    if t.len() > BEST_CAPACITY {
        t.take(BEST_CAPACITY as int)
    } else {
        t
    }
}

/// The set that offering each of `cs` in turn to an empty set builds.
pub open spec fn best_of(cs: Seq<CandidateV>) -> Seq<CandidateV>
    decreases cs.len(),
{
    if cs.len() == 0 {
        Seq::empty()
    } else {
        best_insert(best_of(cs.drop_last()), cs.last())
    }
}

/// What becomes of the ray `r`, traced from its start towards `rx`.
pub open spec fn trace_of(r: (V3, V3), ps: Seq<PlaneV>, rx: V3, threshold: int, cutoff: int) -> TraceV {
    trace_from(r.0, r.1, -1, 0, 0, ps, rx, threshold, cutoff)
}

/// Why the paths to a receiver could not be found.
#[derive(Clone, Copy, Debug, PartialEq, Eq, Structural)]
pub enum TraceError {
    /// The trace of the ray at this index left the coordinate domain.
    OutOfDomain(usize),
}

/// The candidates that the rays `rs`, traced in order towards `rx`, give.
pub open spec fn converged(
    rs: Seq<(V3, V3)>,
    ps: Seq<PlaneV>,
    rx: V3,
    threshold: int,
    cutoff: int,
) -> Seq<CandidateV>
    decreases rs.len(),
{
    if rs.len() == 0 {
        Seq::empty()
    } else {
        let before = converged(rs.drop_last(), ps, rx, threshold, cutoff);
        match trace_of(rs.last(), ps, rx, threshold, cutoff) {
            TraceV::Converged(c) => before.push(c),
            _ => before,
        }
    }
}

/// The insertion point is the first entry strictly farther than `key`.
pub proof fn lemma_insert_at_is(s: Seq<CandidateV>, key: int, p: int)
    requires
        0 <= p <= s.len(),
        forall|j: int| 0 <= j < p ==> s[j].2 <= key,
        p < s.len() ==> key < s[p].2,
    ensures
        insert_at(s, key) == p,
    decreases s.len(),
{
    if s.len() > 0 && !(key < s[0].2) {
        let r = s.drop_first();
        assert forall|j: int| 0 <= j < p - 1 implies r[j].2 <= key by {
            assert(r[j] == s[j + 1]);
        }
        if p - 1 < r.len() {
            assert(r[p - 1] == s[p]);
        }
        lemma_insert_at_is(r, key, p - 1);
    }
}

proof fn lemma_insert_at_props(s: Seq<CandidateV>, key: int)
    ensures
        0 <= insert_at(s, key) <= s.len(),
        forall|j: int| 0 <= j < insert_at(s, key) ==> s[j].2 <= key,
        insert_at(s, key) < s.len() ==> key < s[insert_at(s, key)].2,
    decreases s.len(),
{
    if s.len() > 0 && !(key < s[0].2) {
        let r = s.drop_first();
        lemma_insert_at_props(r, key);
        assert forall|j: int| 0 <= j < insert_at(s, key) implies s[j].2 <= key by {
            if j > 0 {
                assert(s[j] == r[j - 1]);
            }
        }
    }
}

/// Offering a candidate to a sorted set of at most `BEST_CAPACITY` entries
/// leaves it sorted and within capacity.
pub proof fn lemma_best_insert_sorted(s: Seq<CandidateV>, c: CandidateV)
    requires
        sorted_by_approach(s),
        s.len() <= BEST_CAPACITY,
    ensures
        sorted_by_approach(best_insert(s, c)),
        best_insert(s, c).len() <= BEST_CAPACITY,
        s.len() < BEST_CAPACITY ==> best_insert(s, c).len() == s.len() + 1,
        s.len() == BEST_CAPACITY ==> best_insert(s, c).len() == BEST_CAPACITY,
{
    let p = insert_at(s, c.2);
    lemma_insert_at_props(s, c.2);
    let t = s.take(p).push(c) + s.skip(p);
    assert(t.len() == s.len() + 1);
    assert forall|i: int, j: int| 0 <= i < j < t.len() implies t[i].2 <= t[j].2 by {
        if j < p {
            assert(t[i] == s[i] && t[j] == s[j]);
        } else if j == p {
            assert(t[j] == c);
            assert(t[i] == s[i]);
        } else if i < p {
            assert(t[i] == s[i] && t[j] == s[j - 1]);
        } else if i == p {
            assert(t[i] == c && t[j] == s[j - 1]);
            assert(s[p].2 <= s[j - 1].2);
        } else {
            assert(t[i] == s[i - 1] && t[j] == s[j - 1]);
        }
    }
}

/// However many candidates are offered, a best-path set holds at most
/// `BEST_CAPACITY` of them, sorted by closest approach.
pub proof fn lemma_best_of_bounded(cs: Seq<CandidateV>)
    ensures
        best_of(cs).len() <= BEST_CAPACITY,
        sorted_by_approach(best_of(cs)),
    decreases cs.len(),
{
    if cs.len() > 0 {
        lemma_best_of_bounded(cs.drop_last());
        lemma_best_insert_sorted(best_of(cs.drop_last()), cs.last());
    }
}

/// The best paths found for one receiver location: at most
/// `BEST_CAPACITY` candidates, nearest first.
pub struct BestPaths {
    items: Vec<Candidate>,
}

impl View for BestPaths {
    type V = Seq<CandidateV>;

    closed spec fn view(&self) -> Seq<CandidateV> {
        candidate_views(self.items@)
    }
}

impl BestPaths {
    /// The set is within capacity and sorted.
    pub open spec fn wf(&self) -> bool {
        self@.len() <= BEST_CAPACITY && sorted_by_approach(self@)
    }

    /// An empty set.
    pub fn new() -> (r: BestPaths)
        ensures
            r@ == Seq::<CandidateV>::empty(),
            r.wf(),
    {
        let r = BestPaths { items: Vec::new() };
        assert(r@ =~= Seq::<CandidateV>::empty());
        r
    }

    /// Offers a converged candidate to the set; see `best_insert`.
    pub fn insert(&mut self, c: Candidate)
        requires
            old(self).wf(),
        ensures
            final(self)@ == best_insert(old(self)@, c@),
            final(self).wf(),
    {
        let ghost s = self@;
        proof {
            lemma_best_insert_sorted(s, c@);
        }
        let n = self.items.len();
        let mut p: usize = 0;
        while p < n && !(c.approach < self.items[p].approach)
            invariant
                s == self@,
                n == self.items@.len(),
                p <= n,
                forall|j: int| 0 <= j < p ==> s[j].2 <= c.approach,
            decreases n - p,
        {
            assert(s[p as int] == self.items@[p as int]@);
            p = p + 1;
        }
        proof {
            if p < n {
                assert(s[p as int] == self.items@[p as int]@);
            }
            lemma_insert_at_is(s, c.approach as int, p as int);
        }
        let ghost t = s.take(p as int).push(c@) + s.skip(p as int);
        if p >= BEST_CAPACITY {
            assert(t.take(BEST_CAPACITY as int) =~= s);
            return;
        }
        let mut out: Vec<Candidate> = Vec::new();
        let mut i: usize = 0;
        while i < p
            invariant
                s == self@,
                n == self.items@.len(),
                p <= n <= BEST_CAPACITY,
                i <= p,
                out@.len() == i,
                candidate_views(out@) == s.take(i as int),
            decreases p - i,
        {
            assert(s[i as int] == self.items@[i as int]@);
            let ghost before = out@;
            out.push(self.items[i]);
            proof {
                assert(out@ == before.push(self.items@[i as int]));
                assert forall|j: int| 0 <= j < i + 1 implies #[trigger] candidate_views(out@)[j]
                    == s.take(i + 1)[j] by {
                    if j < i {
                        assert(candidate_views(before)[j] == s.take(i as int)[j]);
                    }
                }
                assert(candidate_views(out@) =~= s.take(i + 1));
            }
            i = i + 1;
        }
        out.push(c);
        proof {
            assert(candidate_views(out@) =~= t.take(p + 1));
        }
        while i < n && out.len() < BEST_CAPACITY
            invariant
                s == self@,
                n == self.items@.len(),
                t == s.take(p as int).push(c@) + s.skip(p as int),
                p <= i <= n <= BEST_CAPACITY,
                p < BEST_CAPACITY,
                out@.len() == i + 1,
                out@.len() <= BEST_CAPACITY,
                candidate_views(out@) == t.take(i + 1),
            decreases n - i,
        {
            assert(s[i as int] == self.items@[i as int]@);
            out.push(self.items[i]);
            proof {
                assert(t[i + 1] == s[i as int]);
                assert(candidate_views(out@) =~= t.take(i + 2));
            }
            i = i + 1;
        }
        proof {
            assert(t.len() == n + 1);
            if t.len() > BEST_CAPACITY {
                assert(out@.len() == BEST_CAPACITY);
            } else {
                assert(t.take(i + 1) =~= t);
            }
        }
        self.items = out;
    }

    /// The candidates, nearest first.
    pub fn entries(&self) -> (r: &Vec<Candidate>)
        ensures
            candidate_views(r@) == self@,
    {
        &self.items
    }

    /// How many candidates the set holds.
    pub fn len(&self) -> (r: usize)
        ensures
            r == self@.len(),
    {
        self.items.len()
    }
}

/// Traces every ray towards one receiver and keeps the best paths: the set
/// that offering each converged candidate, in ray order, to an empty set
/// builds. If the trace of some ray leaves the coordinate domain, the first
/// such ray is reported instead.
pub fn best_paths_for(rays: &Vec<Ray>, planes: &Vec<Plane>, receiver: &Vec3, limits: &TraceLimits) -> (r:
    Result<BestPaths, TraceError>)
    requires
        forall|k: int|
            0 <= k < rays@.len() ==> in_domain((#[trigger] rays@[k]).origin@) && in_domain(
                rays@[k].target@,
            ),
        in_domain(receiver@),
        planes_in_domain(planes_view(planes@)),
    ensures
        match r {
            Ok(b) => b.wf() && (forall|k: int|
                0 <= k < rays@.len() ==> !(trace_of(
                    #[trigger] ray_views(rays@)[k],
                    planes_view(planes@),
                    receiver@,
                    limits.threshold as int,
                    limits.cutoff as int,
                ) is OutOfDomain)) && b@ == best_of(
                converged(
                    ray_views(rays@),
                    planes_view(planes@),
                    receiver@,
                    limits.threshold as int,
                    limits.cutoff as int,
                ),
            ),
            Err(TraceError::OutOfDomain(i)) => i < rays@.len() && trace_of(
                ray_views(rays@)[i as int],
                planes_view(planes@),
                receiver@,
                limits.threshold as int,
                limits.cutoff as int,
            ) is OutOfDomain && forall|k: int|
                0 <= k < i ==> !(trace_of(
                    #[trigger] ray_views(rays@)[k],
                    planes_view(planes@),
                    receiver@,
                    limits.threshold as int,
                    limits.cutoff as int,
                ) is OutOfDomain),
        },
{
    let ghost ps = planes_view(planes@);
    let ghost th = limits.threshold as int;
    let ghost co = limits.cutoff as int;
    let ghost rv = ray_views(rays@);
    let mut best = BestPaths::new();
    let mut i: usize = 0;
    while i < rays.len()
        invariant
            i <= rays@.len(),
            ps == planes_view(planes@),
            rv == ray_views(rays@),
            th == limits.threshold as int,
            co == limits.cutoff as int,
            forall|k: int|
                0 <= k < rays@.len() ==> in_domain((#[trigger] rays@[k]).origin@) && in_domain(
                    rays@[k].target@,
                ),
            in_domain(receiver@),
            planes_in_domain(ps),
            best.wf(),
            forall|k: int| 0 <= k < i ==> !(trace_of(#[trigger] rv[k], ps, receiver@, th, co) is OutOfDomain),
            best@ == best_of(converged(rv.take(i as int), ps, receiver@, th, co)),
        decreases rays@.len() - i,
    {
        let ghost before = rv.take(i as int);
        let found = trace_ray(&rays[i], planes, receiver, limits);
        proof {
            let now = rv.take(i + 1);
            assert(now.drop_last() =~= before);
            assert(now.last() == ray_view(rays@[i as int]));
            assert(rv[i as int] == ray_view(rays@[i as int]));
        }
        let ghost conv_before = converged(before, ps, receiver@, th, co);
        match found {
            Trace::Converged(c) => {
                proof {
                    assert(conv_before.push(c@).drop_last() =~= conv_before);
                }
                best.insert(c);
            },
            Trace::OutOfDomain => {
                return Err(TraceError::OutOfDomain(i));
            },
            _ => {},
        }
        i = i + 1;
    }
    proof {
        assert(rv.take(rays@.len() as int) =~= rv);
    }
    Ok(best)
}

} // verus!
