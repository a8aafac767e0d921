use vstd::prelude::*;

use crate::vec2::{in_domain2, Vec2, V2};
use crate::vec3::{in_domain, Vec3, COORD_LIMIT, V3};

verus! {

/// A bounded rectangular reflecting surface given by four corners: `s1`, `s2`
/// along one edge, `s3` next to `s1` and `s4` next to `s2` along the
/// opposite edge. The surface is spanned from `s1` by `s2 - s1` and
/// `s3 - s1`.
#[derive(Clone, Copy, Debug, PartialEq, Eq, Structural)]
pub struct Plane {
    pub s1: Vec3,
    pub s2: Vec3,
    pub s3: Vec3,
    pub s4: Vec3,
}

/// The four corners of a plane.
pub type PlaneV = (V3, V3, V3, V3);

impl View for Plane {
    type V = PlaneV;

    open spec fn view(&self) -> PlaneV {
        (self.s1@, self.s2@, self.s3@, self.s4@)
    }
}

/// Every corner lies in the coordinate domain.
pub open spec fn plane_in_domain(p: PlaneV) -> bool {
    in_domain(p.0) && in_domain(p.1) && in_domain(p.2) && in_domain(p.3)
}

/// A wall of the floor plan: its two end points.
pub type Wall = (Vec2, Vec2);

/// A room outline: four corners in order around it.
pub type Room = (Vec2, Vec2, Vec2, Vec2);

/// Why a floor plan could not be turned into planes.
#[derive(Clone, Copy, Debug, PartialEq, Eq, Structural)]
pub enum GeometryError {
    /// The ceiling height is not in `1..=COORD_LIMIT`.
    BadCeiling,
    /// The wall at this index has coincident end points or a point outside
    /// the coordinate domain.
    BadWall(usize),
    /// The room at this index has a first corner that coincides with a
    /// neighbour, or a corner outside the coordinate domain.
    BadRoom(usize),
}

/// The point of the floor plan at height `z`.
pub open spec fn lift(p: V2, z: int) -> V3 {
    (p.0, p.1, z)
}

pub open spec fn ceiling_ok(ceiling: int) -> bool {
    0 < ceiling <= COORD_LIMIT
}

pub open spec fn wall_ok(w: (V2, V2)) -> bool {
    in_domain2(w.0) && in_domain2(w.1) && w.0 != w.1
}

pub open spec fn room_ok(r: (V2, V2, V2, V2)) -> bool {
    in_domain2(r.0) && in_domain2(r.1) && in_domain2(r.2) && in_domain2(r.3) && r.0 != r.1 && r.0
        != r.3
}

/// The vertical face of a wall, from the floor up to the ceiling.
pub open spec fn wall_plane(w: (V2, V2), ceiling: int) -> PlaneV {
    (lift(w.0, ceiling), lift(w.1, ceiling), lift(w.0, 0), lift(w.1, 0))
}

/// The horizontal face of a room outline at height `z`. The corner after
/// the first and the corner before it span the face.
pub open spec fn room_plane(r: (V2, V2, V2, V2), z: int) -> PlaneV {
    (lift(r.0, z), lift(r.1, z), lift(r.3, z), lift(r.2, z))
}

pub open spec fn wall_view(w: Wall) -> (V2, V2) {
    (w.0@, w.1@)
}

pub open spec fn room_view(r: Room) -> (V2, V2, V2, V2) {
    (r.0@, r.1@, r.2@, r.3@)
}

/// The planes of a floor plan: the face of each wall in order, then for
/// each room its floor followed by its ceiling.
pub open spec fn planes_spec(walls: Seq<Wall>, rooms: Seq<Room>, ceiling: int) -> Seq<PlaneV> {
    Seq::new(
        (walls.len() + 2 * rooms.len()) as nat,
        |i: int|
            if i < walls.len() {
                wall_plane(wall_view(walls[i]), ceiling)
            } else {
                let j = (i - walls.len()) / 2;
                if (i - walls.len()) % 2 == 0 {
                    room_plane(room_view(rooms[j]), 0)
                } else {
                    room_plane(room_view(rooms[j]), ceiling)
                }
            },
    )
}

fn lift_exec(p: &Vec2, z: i64) -> (r: Vec3)
    ensures
        r@ == lift(p@, z as int),
{
    Vec3 { x: p.x, y: p.y, z }
}

fn point_ok(p: &Vec2) -> (r: bool)
    ensures
        r == in_domain2(p@),
{
    -COORD_LIMIT <= p.x && p.x <= COORD_LIMIT && -COORD_LIMIT <= p.y && p.y <= COORD_LIMIT
}

/// Turns the walls and room outlines of a floor plan into the planes that
/// bound the scene. Input is checked first: the ceiling, then each wall in
/// order, then each room in order; the first fault found is reported.
pub fn build_planes(walls: &Vec<Wall>, rooms: &Vec<Room>, ceiling: i64) -> (r: Result<
    Vec<Plane>,
    GeometryError,
>)
    ensures
        !ceiling_ok(ceiling as int) ==> r == Err::<Vec<Plane>, GeometryError>(
            GeometryError::BadCeiling,
        ),
        r == Err::<Vec<Plane>, GeometryError>(GeometryError::BadCeiling) ==> !ceiling_ok(
            ceiling as int,
        ),
        match r {
            Err(GeometryError::BadWall(i)) => ceiling_ok(ceiling as int) && i < walls@.len()
                && !wall_ok(wall_view(walls@[i as int])) && forall|k: int|
                0 <= k < i ==> wall_ok(wall_view(walls@[k])),
            Err(GeometryError::BadRoom(i)) => ceiling_ok(ceiling as int) && (forall|k: int|
                0 <= k < walls@.len() ==> wall_ok(wall_view(walls@[k]))) && i < rooms@.len()
                && !room_ok(room_view(rooms@[i as int])) && forall|k: int|
                0 <= k < i ==> room_ok(room_view(rooms@[k])),
            _ => true,
        },
        r is Ok <==> ceiling_ok(ceiling as int) && (forall|k: int|
            0 <= k < walls@.len() ==> wall_ok(wall_view(walls@[k]))) && (forall|k: int|
            0 <= k < rooms@.len() ==> room_ok(room_view(rooms@[k]))),
        r is Ok ==> r->Ok_0@.map_values(|p: Plane| p@) == planes_spec(
            walls@,
            rooms@,
            ceiling as int,
        ),
{
    if ceiling <= 0 || ceiling > COORD_LIMIT {
        return Err(GeometryError::BadCeiling);
    }
    let mut i: usize = 0;
    while i < walls.len()
        invariant
            i <= walls@.len(),
            ceiling_ok(ceiling as int),
            forall|k: int| 0 <= k < i ==> wall_ok(wall_view(walls@[k])),
        decreases walls@.len() - i,
    {
        let w = &walls[i];
        if !(point_ok(&w.0) && point_ok(&w.1) && (w.0.x != w.1.x || w.0.y != w.1.y)) {
            return Err(GeometryError::BadWall(i));
        }
        i = i + 1;
    }
    let mut j: usize = 0;
    while j < rooms.len()
        invariant
            j <= rooms@.len(),
            ceiling_ok(ceiling as int),
            forall|k: int| 0 <= k < walls@.len() ==> wall_ok(wall_view(walls@[k])),
            forall|k: int| 0 <= k < j ==> room_ok(room_view(rooms@[k])),
        decreases rooms@.len() - j,
    {
        let r = &rooms[j];
        if !(point_ok(&r.0) && point_ok(&r.1) && point_ok(&r.2) && point_ok(&r.3) && (r.0.x
            != r.1.x || r.0.y != r.1.y) && (r.0.x != r.3.x || r.0.y != r.3.y)) {
            return Err(GeometryError::BadRoom(j));
        }
        j = j + 1;
    }
    let ghost target = planes_spec(walls@, rooms@, ceiling as int);
    let mut planes: Vec<Plane> = Vec::new();
    let mut i: usize = 0;
    while i < walls.len()
        invariant
            i <= walls@.len(),
            target == planes_spec(walls@, rooms@, ceiling as int),
            planes@.len() == i,
            forall|k: int| 0 <= k < i ==> (#[trigger] planes@[k])@ == target[k],
        decreases walls@.len() - i,
    {
        let w = &walls[i];
        planes.push(
            Plane {
                s1: lift_exec(&w.0, ceiling),
                s2: lift_exec(&w.1, ceiling),
                s3: lift_exec(&w.0, 0),
                s4: lift_exec(&w.1, 0),
            },
        );
        i = i + 1;
    }
    let mut j: usize = 0;
    while j < rooms.len()
        invariant
            j <= rooms@.len(),
            target == planes_spec(walls@, rooms@, ceiling as int),
            planes@.len() == walls@.len() + 2 * j,
            forall|k: int| 0 <= k < planes@.len() ==> (#[trigger] planes@[k])@ == target[k],
        decreases rooms@.len() - j,
    {
        let r = &rooms[j];
        let ghost base = planes@.len() as int;
        planes.push(
            Plane {
                s1: lift_exec(&r.0, 0),
                s2: lift_exec(&r.1, 0),
                s3: lift_exec(&r.3, 0),
                s4: lift_exec(&r.2, 0),
            },
        );
        planes.push(
            Plane {
                s1: lift_exec(&r.0, ceiling),
                s2: lift_exec(&r.1, ceiling),
                s3: lift_exec(&r.3, ceiling),
                s4: lift_exec(&r.2, ceiling),
            },
        );
        proof {
            assert((base - walls@.len()) / 2 == j as int);
            assert((base + 1 - walls@.len()) / 2 == j as int);
            assert((base - walls@.len()) % 2 == 0);
            assert((base + 1 - walls@.len()) % 2 == 1);
        }
        j = j + 1;
    }
    proof {
        assert(planes@.map_values(|p: Plane| p@) =~= target);
    }
    Ok(planes)
}

} // verus!
