use vstd::prelude::*;

use vstd::arithmetic::div_mod::lemma_fundamental_div_mod_converse;

use crate::vec3::COORD_LIMIT;

verus! {

/// A mathematical vector in the plane.
pub type V2 = (int, int);

/// A point of the floor plan with integer coordinates.
#[derive(Clone, Copy, Debug, PartialEq, Eq, Structural)]
pub struct Vec2 {
    pub x: i64,
    pub y: i64,
}

impl View for Vec2 {
    type V = V2;

    open spec fn view(&self) -> V2 {
        (self.x as int, self.y as int)
    }
}

/// Largest magnitude of a coordinate that `Vec2::line` takes: differences
/// and twice the extent of a segment must fit in an `i64`.
pub const RASTER_LIMIT: i64 = 0x1000_0000_0000_0000;

/// Both coordinates lie in `[-RASTER_LIMIT, RASTER_LIMIT]`.
pub open spec fn in_raster(a: V2) -> bool {
    -RASTER_LIMIT <= a.0 <= RASTER_LIMIT && -RASTER_LIMIT <= a.1 <= RASTER_LIMIT
}

/// Both coordinates lie in `[-COORD_LIMIT, COORD_LIMIT]`.
pub open spec fn in_domain2(a: V2) -> bool {
    -COORD_LIMIT <= a.0 <= COORD_LIMIT && -COORD_LIMIT <= a.1 <= COORD_LIMIT
}

pub open spec fn iabs(a: int) -> int {
    if a < 0 {
        -a
    } else {
        a
    }
}

/// The end points of a segment arranged for a sweep along its major axis:
/// whether the segment is steep (its `y` extent exceeds its `x` extent,
/// and the axes are swapped), then the start and the end point, start
/// first along the major axis.
pub open spec fn sweep(a: V2, b: V2) -> (bool, V2, V2) {
    let steep = iabs(b.1 - a.1) > iabs(b.0 - a.0);
    let s = if steep {
        (a.1, a.0)
    } else {
        a
    };
    let e = if steep {
        (b.1, b.0)
    } else {
        b
    };
    if s.0 > e.0 {
        (steep, e, s)
    } else {
        (steep, s, e)
    }
}

/// The `k`-th pixel of the segment from `a` to `b`: `k` steps along the
/// major axis from the start, and along the minor axis the nearest whole
/// step to the exact line, a half rounded down.
pub open spec fn line_point(a: V2, b: V2, k: int) -> V2 {
    let w = sweep(a, b);
    let s = w.1;
    let e = w.2;
    let dx = e.0 - s.0;
    let dy = iabs(e.1 - s.1);
    let ystep = if s.1 < e.1 {
        1int
    } else {
        -1int
    };
    let major = s.0 + k;
    let minor = s.1 + ystep * ((2 * k * dy + dx - 1) / (2 * dx));
    if w.0 {
        (minor, major)
    } else {
        (major, minor)
    }
}

/// The pixels of the segment from `a` to `b`, one per step along its major
/// axis, the far end point excluded.
pub open spec fn line_spec(a: V2, b: V2) -> Seq<V2> {
    let w = sweep(a, b);
    Seq::new((w.2.0 - w.1.0) as nat, |k: int| line_point(a, b, k))
}

/// The view of each point.
pub open spec fn vec2_views(ps: Seq<Vec2>) -> Seq<V2> {
    ps.map_values(|p: Vec2| p@)
}

proof fn lemma_minor_step(j: int, dx: int, dy: int, m: int, err: int)
    requires
        dx > 0,
        0 <= dy <= dx,
        j >= 0,
        err == dx - 2 * j * dy + 2 * m * dx,
        0 <= err < 2 * dx,
    ensures
        m == (2 * j * dy + dx - 1) / (2 * dx),
{
    assert(2 * j * dy + dx - 1 == m * (2 * dx) + (2 * dx - 1 - err)) by (nonlinear_arith)
        requires
            err == dx - 2 * j * dy + 2 * m * dx,
    ;
    lemma_fundamental_div_mod_converse(2 * j * dy + dx - 1, 2 * dx, m, 2 * dx - 1 - err);
}

impl Vec2 {
    pub fn new(x: i64, y: i64) -> (r: Vec2)
        ensures
            r@ == (x as int, y as int),
    {
        Vec2 { x, y }
    }

    /// Rasterises the segment from `v1` to `v2` with Bresenham's method;
    /// see `line_spec`.
    pub fn line(v1: &Vec2, v2: &Vec2) -> (r: Vec<Vec2>)
        requires
            in_raster(v1@),
            in_raster(v2@),
        ensures
            vec2_views(r@) == line_spec(v1@, v2@),
    {
        let steep = abs(v2.y - v1.y) > abs(v2.x - v1.x);
        let (mut sx, mut sy, mut ex, mut ey) = if steep {
            (v1.y, v1.x, v2.y, v2.x)
        } else {
            (v1.x, v1.y, v2.x, v2.y)
        };
        if sx > ex {
            let (tx, ty) = (sx, sy);
            sx = ex;
            sy = ey;
            ex = tx;
            ey = ty;
        }
        let ghost w = sweep(v1@, v2@);
        assert(w == (steep, (sx as int, sy as int), (ex as int, ey as int)));
        let dx = ex - sx;
        let dy = abs(ey - sy);
        let ystep: i64 = if sy < ey {
            1
        } else {
            -1
        };
        let mut line: Vec<Vec2> = Vec::new();
        let mut err: i64 = dx;
        let mut x = sx;
        let mut y = sy;
        let ghost mut m: int = 0;
        assert(2 * (x - sx) * dy == 0 && 2 * m * dx == 0 && ystep * m == 0) by (nonlinear_arith)
            requires
                x == sx,
                m == 0,
        ;
        while x < ex
            invariant
                w == sweep(v1@, v2@),
                w == (steep, (sx as int, sy as int), (ex as int, ey as int)),
                -RASTER_LIMIT <= sx <= x <= ex <= RASTER_LIMIT,
                -RASTER_LIMIT <= sy <= RASTER_LIMIT,
                -RASTER_LIMIT <= ey <= RASTER_LIMIT,
                dx == ex - sx,
                dy == iabs(ey - sy),
                dy <= dx,
                ystep == if sy < ey {
                    1int
                } else {
                    -1int
                },
                0 <= m <= x - sx,
                y == sy + ystep * m,
                ystep == 1 ==> y == sy + m,
                ystep == -1 ==> y == sy - m,
                x < ex ==> err == dx - 2 * (x - sx) * dy + 2 * m * dx && 0 <= err < 2 * dx,
                line@.len() == x - sx,
                forall|k: int| 0 <= k < line@.len() ==> (#[trigger] line@[k])@ == line_point(v1@, v2@, k),
            decreases ex - x,
        {
            proof {
                lemma_minor_step(x - sx, dx as int, dy as int, m, err as int);
            }
            let p = if steep {
                Vec2 { x: y, y: x }
            } else {
                Vec2 { x: x, y: y }
            };
            line.push(p);
            let ghost j = x - sx;
            err = err - 2 * dy;
            let ghost err_mid = err;
            if err < 0 {
                y = y + ystep;
                err = err + 2 * dx;
                proof {
                    assert(2 * (m + 1) * dx == 2 * m * dx + 2 * dx) by (nonlinear_arith);
                    m = m + 1;
                    assert(ystep * m == ystep * (m - 1) + ystep) by (nonlinear_arith);
                }
            }
            x = x + 1;
            proof {
                assert(err == dx - 2 * (x - sx) * dy + 2 * m * dx) by (nonlinear_arith)
                    requires
                        err == dx - 2 * j * dy + 2 * m * dx - 2 * dy,
                        x - sx == j + 1,
                ;
            }
        }
        proof {
            assert(vec2_views(line@) =~= line_spec(v1@, v2@));
        }
        line
    }
}

fn abs(a: i64) -> (r: i64)
    requires
        a > i64::MIN,
    ensures
        r == iabs(a as int),
{
    if a < 0 {
        -a
    } else {
        a
    }
}

} // verus!
