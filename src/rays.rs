use vstd::prelude::*;

use crate::trace::Ray;
use crate::vec3::{in_domain, vadd, Vec3, COORD_LIMIT, V3};

verus! {

/// Largest scale that a table of cosines and sines may have.
pub const TRIG_SCALE_LIMIT: i64 = 65536;

/// Why a set of rays could not be generated.
#[derive(Clone, Copy, Debug, PartialEq, Eq, Structural)]
pub enum RayError {
    /// The sampling table is empty: the grid density is zero.
    EmptyGrid,
    /// The scale is not in `1..=TRIG_SCALE_LIMIT`, or a table entry exceeds it.
    BadTable,
    /// The transmitter or an aim point lies outside the coordinate domain.
    OutOfDomain,
}

/// A ray as its origin and target.
pub open spec fn ray_view(r: Ray) -> (V3, V3) {
    (r.origin@, r.target@)
}

/// The view of each ray.
pub open spec fn ray_views(rs: Seq<Ray>) -> Seq<(V3, V3)> {
    rs.map_values(|r: Ray| ray_view(r))
}

/// Each entry holds the cosine and the sine of one sampling angle, times
/// `scale`, and none exceeds it.
pub open spec fn table_ok(table: Seq<(i64, i64)>, scale: int) -> bool {
    0 < scale <= TRIG_SCALE_LIMIT && forall|i: int|
        0 <= i < table.len() ==> -scale <= (#[trigger] table[i]).0 <= scale && -scale
            <= table[i].1 <= scale
}

/// Direction for latitude index `i` and longitude index `j`, times
/// `scale * scale`: `(cos lng * sin lat, sin lng * sin lat, cos lat)`.
pub open spec fn direction(table: Seq<(i64, i64)>, scale: int, i: int, j: int) -> V3 {
    (table[j].0 * table[i].1, table[j].1 * table[i].1, table[i].0 * scale)
}

/// The rays from `tx`: for each latitude in table order and, within it,
/// each longitude in table order, one ray aimed at `tx` plus the direction.
pub open spec fn rays_spec(tx: V3, table: Seq<(i64, i64)>, scale: int) -> Seq<(V3, V3)> {
    let n = table.len() as int;
    Seq::new(
        (n * n) as nat,
        |k: int| (tx, vadd(tx, direction(table, scale, k / n, k % n))),
    )
}

/// Every aim point lies in the coordinate domain.
pub open spec fn aims_in_domain(tx: V3, table: Seq<(i64, i64)>, scale: int) -> bool {
    forall|i: int, j: int|
        0 <= i < table.len() && 0 <= j < table.len() ==> in_domain(
            #[trigger] vadd(tx, direction(table, scale, i, j)),
        )
}

proof fn lemma_index(n: int, i: int, j: int)
    requires
        0 <= i < n,
        0 <= j < n,
    ensures
        (i * n + j) / n == i,
        (i * n + j) % n == j,
        0 <= i * n + j < n * n,
{
    assert((i * n + j) / n == i && (i * n + j) % n == j && 0 <= i * n + j < n * n)
        by (nonlinear_arith)
        requires
            0 <= i < n,
            0 <= j < n,
    ;
}

fn coord_ok(c: i64) -> (r: bool)
    ensures
        r == (-COORD_LIMIT <= c <= COORD_LIMIT),
{
    -COORD_LIMIT <= c && c <= COORD_LIMIT
}

/// Generates the rays that leave the transmitter `tx` on a spherical grid.
/// `table` holds, for each of the N sampling angles that sweep a full turn
/// in equal steps, its cosine and sine times `scale`; latitude and longitude
/// both run over them. There are N*N rays, latitude-major.
pub fn generate_rays(tx: &Vec3, table: &Vec<(i64, i64)>, scale: i64) -> (r: Result<
    Vec<Ray>,
    RayError,
>)
    ensures
        r == Err::<Vec<Ray>, RayError>(RayError::EmptyGrid) <==> table@.len() == 0,
        r == Err::<Vec<Ray>, RayError>(RayError::BadTable) <==> table@.len() > 0 && !table_ok(
            table@,
            scale as int,
        ),
        r == Err::<Vec<Ray>, RayError>(RayError::OutOfDomain) <==> table@.len() > 0 && table_ok(
            table@,
            scale as int,
        ) && !(in_domain(tx@) && aims_in_domain(tx@, table@, scale as int)),
        r is Ok <==> table@.len() > 0 && table_ok(table@, scale as int) && in_domain(tx@)
            && aims_in_domain(tx@, table@, scale as int),
        r is Ok ==> ray_views(r->Ok_0@) == rays_spec(tx@, table@, scale as int),
{
    let n = table.len();
    if n == 0 {
        return Err(RayError::EmptyGrid);
    }
    if scale <= 0 || scale > TRIG_SCALE_LIMIT {
        return Err(RayError::BadTable);
    }
    let mut i: usize = 0;
    while i < n
        invariant
            n == table@.len(),
            0 < scale <= TRIG_SCALE_LIMIT,
            i <= n,
            forall|k: int|
                0 <= k < i ==> -scale <= (#[trigger] table@[k]).0 <= scale && -scale
                    <= table@[k].1 <= scale,
        decreases n - i,
    {
        let (c, s) = table[i];
        if c < -scale || c > scale || s < -scale || s > scale {
            return Err(RayError::BadTable);
        }
        i = i + 1;
    }
    if !(coord_ok(tx.x) && coord_ok(tx.y) && coord_ok(tx.z)) {
        return Err(RayError::OutOfDomain);
    }
    let ghost goal = rays_spec(tx@, table@, scale as int);
    let mut rays: Vec<Ray> = Vec::new();
    let mut i: usize = 0;
    while i < n
        invariant
            n == table@.len(),
            n > 0,
            table_ok(table@, scale as int),
            in_domain(tx@),
            goal == rays_spec(tx@, table@, scale as int),
            i <= n,
            rays@.len() == i * n,
            forall|k: int| 0 <= k < rays@.len() ==> ray_view(#[trigger] rays@[k]) == goal[k],
            forall|a: int, b: int|
                0 <= a < i && 0 <= b < n ==> in_domain(
                    #[trigger] vadd(tx@, direction(table@, scale as int, a, b)),
                ),
        decreases n - i,
    {
        let mut j: usize = 0;
        while j < n
            invariant
                n == table@.len(),
                n > 0,
                table_ok(table@, scale as int),
                in_domain(tx@),
                goal == rays_spec(tx@, table@, scale as int),
                i < n,
                j <= n,
                rays@.len() == i * n + j,
                forall|k: int| 0 <= k < rays@.len() ==> ray_view(#[trigger] rays@[k]) == goal[k],
                forall|a: int, b: int|
                    (0 <= a < i && 0 <= b < n) || (a == i && 0 <= b < j) ==> in_domain(
                        #[trigger] vadd(tx@, direction(table@, scale as int, a, b)),
                    ),
            decreases n - j,
        {
            let (ci, si) = table[i];
            let (cj, sj) = table[j];
            proof {
                crate::vec3::lemma_mul_bounded(cj as int, si as int, scale as int, scale as int);
                crate::vec3::lemma_mul_bounded(sj as int, si as int, scale as int, scale as int);
                crate::vec3::lemma_mul_bounded(ci as int, scale as int, scale as int, scale as int);
                assert(scale * scale <= TRIG_SCALE_LIMIT * TRIG_SCALE_LIMIT) by (nonlinear_arith)
                    requires
                        0 < scale <= TRIG_SCALE_LIMIT,
                ;
                lemma_index(n as int, i as int, j as int);
                assert(table@[i as int] == (ci, si));
                assert(table@[j as int] == (cj, sj));
            }
            let x = tx.x + cj * si;
            let y = tx.y + sj * si;
            let z = tx.z + ci * scale;
            assert(vadd(tx@, direction(table@, scale as int, i as int, j as int)) == (
                x as int,
                y as int,
                z as int,
            ));
            if !(coord_ok(x) && coord_ok(y) && coord_ok(z)) {
                assert(!in_domain(vadd(tx@, direction(table@, scale as int, i as int, j as int))));
                return Err(RayError::OutOfDomain);
            }
            rays.push(Ray { origin: *tx, target: Vec3 { x, y, z } });
            proof {
                assert(ray_view(rays@[i * n + j]) == goal[i * n + j]);
            }
            j = j + 1;
        }
        proof {
            assert((i + 1) * n == i * n + n) by (nonlinear_arith);
        }
        i = i + 1;
    }
    proof {
        assert(ray_views(rays@) =~= goal);
    }
    Ok(rays)
}

} // verus!
