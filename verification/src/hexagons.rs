//! Cube coordinates for a pointy-top hexagonal grid, after the classic
//! three-axis representation: a cell is addressed by integers (x, y, z)
//! with x + y + z == 0.

use vstd::prelude::*;

verus! {

use vstd::math::abs;

/// Mathematical model of a cube coordinate: three unbounded integers.
pub ghost struct Cube {
    pub x: int,
    pub y: int,
    pub z: int,
}

/// Componentwise sum of two cube vectors.
pub open spec fn cube_add(a: Cube, b: Cube) -> Cube {
    Cube { x: a.x + b.x, y: a.y + b.y, z: a.z + b.z }
}

/// Componentwise negation of a cube vector.
pub open spec fn cube_neg(a: Cube) -> Cube {
    Cube { x: -a.x, y: -a.y, z: -a.z }
}

/// Componentwise difference of two cube vectors.
pub open spec fn cube_sub(a: Cube, b: Cube) -> Cube {
    cube_add(a, cube_neg(b))
}

/// Grid distance between two cells: half the taxicab length of their
/// difference, since any step changes two of the three axes.
pub open spec fn cube_distance(a: Cube, b: Cube) -> int {
    ((abs(a.x - b.x) + abs(a.y - b.y) + abs(a.z - b.z)) as int) / 2
}

/// The six unit direction vectors, numbered counterclockwise starting
/// from the east neighbor.
pub open spec fn direction_offset(d: int) -> Cube {
    if d == 0 {
        Cube { x: 1, y: -1, z: 0 }
    } else if d == 1 {
        Cube { x: 1, y: 0, z: -1 }
    } else if d == 2 {
        Cube { x: 0, y: 1, z: -1 }
    } else if d == 3 {
        Cube { x: -1, y: 1, z: 0 }
    } else if d == 4 {
        Cube { x: -1, y: 0, z: 1 }
    } else {
        Cube { x: 0, y: -1, z: 1 }
    }
}

/// A cell of the hexagonal grid, in cube form. Immutable value type;
/// every value satisfies x + y + z == 0.
#[derive(Debug, Clone, Copy, PartialEq, Eq, Structural, Hash)]
pub struct HexCoordinates {
    x: i32,
    y: i32,
    z: i32,
}

impl View for HexCoordinates {
    type V = Cube;

    closed spec fn view(&self) -> Cube {
        Cube { x: self.x as int, y: self.y as int, z: self.z as int }
    }
}

impl HexCoordinates {
    #[verifier::type_invariant]
    pub open spec fn cube_axes_balanced(self) -> bool {
        self@.x + self@.y + self@.z == 0
    }

    /// Builds a coordinate from explicit cube axes; the axes must sum to
    /// zero.
    pub fn new_cube(x: i32, y: i32, z: i32) -> (c: Self)
        requires
            x + y + z == 0,
        ensures
            c@ == (Cube { x: x as int, y: y as int, z: z as int }),
    {
        HexCoordinates { x, y, z }
    }

    /// Builds a coordinate from axial form (q, r); the third cube axis is
    /// derived as the negated sum, so the result always balances.
    pub fn new_axial(q: i32, r: i32) -> (c: Self)
        requires
            i32::MIN < q + r <= i32::MAX,
        ensures
            c@ == (Cube { x: r as int, y: -(q as int + r as int), z: q as int }),
            c@.x + c@.y + c@.z == 0,
    {
        HexCoordinates { x: r, y: -(q + r), z: q }
    }

    /// The cell at cube (0, 0, 0).
    pub fn origin() -> (c: Self)
        ensures
            c@ == (Cube { x: 0, y: 0, z: 0 }),
    {
        HexCoordinates { x: 0, y: 0, z: 0 }
    }

    /// The adjacent cell in the given direction (0..6).
    pub fn neighbor(&self, direction: usize) -> (c: Self)
        requires
            direction < 6,
            i32::MIN <= self@.x + direction_offset(direction as int).x <= i32::MAX,
            i32::MIN <= self@.y + direction_offset(direction as int).y <= i32::MAX,
            i32::MIN <= self@.z + direction_offset(direction as int).z <= i32::MAX,
        ensures
            c@ == cube_add(self@, direction_offset(direction as int)),
    {
        proof {
            use_type_invariant(self);
        }
        let (dx, dy, dz): (i32, i32, i32) = match direction {
            0 => (1, -1, 0),
            1 => (1, 0, -1),
            2 => (0, 1, -1),
            3 => (-1, 1, 0),
            4 => (-1, 0, 1),
            _ => (0, -1, 1),
        };
        HexCoordinates { x: self.x + dx, y: self.y + dy, z: self.z + dz }
    }

    /// All six adjacent cells, by direction number.
    pub fn neighbors(&self) -> (r: [Self; 6])
        requires
            i32::MIN < self@.x < i32::MAX,
            i32::MIN < self@.y < i32::MAX,
            i32::MIN < self@.z < i32::MAX,
        ensures
            forall|d: int| 0 <= d < 6 ==> r[d]@ == cube_add(self@, direction_offset(d)),
    {
        [
            self.neighbor(0),
            self.neighbor(1),
            self.neighbor(2),
            self.neighbor(3),
            self.neighbor(4),
            self.neighbor(5),
        ]
    }

    /// Grid distance to another cell, in a width that can never
    /// overflow.
    pub(crate) fn distance_i64(&self, other: &Self) -> (d: i64)
        ensures
            d == cube_distance(self@, other@),
            d >= 0,
    {
        let dx: i64 = (self.x as i64) - (other.x as i64);
        let dy: i64 = (self.y as i64) - (other.y as i64);
        let dz: i64 = (self.z as i64) - (other.z as i64);
        let ax: i64 = if dx < 0 { -dx } else { dx };
        let ay: i64 = if dy < 0 { -dy } else { dy };
        let az: i64 = if dz < 0 { -dz } else { dz };
        (ax + ay + az) / 2
    }

    /// Grid distance to another cell.
    pub fn distance_to(&self, other: &Self) -> (d: i32)
        requires
            cube_distance(self@, other@) <= i32::MAX,
        ensures
            d == cube_distance(self@, other@),
            d >= 0,
    {
        self.distance_i64(other) as i32
    }

    /// The axial row axis: the z cube component.
    pub fn p(&self) -> (r: i32)
        ensures
            r == self@.z,
    {
        self.z
    }

    /// The axial column axis: the x cube component.
    pub fn q(&self) -> (r: i32)
        ensures
            r == self@.x,
    {
        self.x
    }

    /// Componentwise vector sum of two coordinates.
    pub fn add(self, other: Self) -> (c: Self)
        requires
            i32::MIN <= self@.x + other@.x <= i32::MAX,
            i32::MIN <= self@.y + other@.y <= i32::MAX,
            i32::MIN <= self@.z + other@.z <= i32::MAX,
        ensures
            c@ == cube_add(self@, other@),
    {
        proof {
            use_type_invariant(self);
            use_type_invariant(other);
        }
        HexCoordinates { x: self.x + other.x, y: self.y + other.y, z: self.z + other.z }
    }

    /// Componentwise vector negation.
    pub fn neg(self) -> (c: Self)
        requires
            i32::MIN < self@.x,
            i32::MIN < self@.y,
            i32::MIN < self@.z,
        ensures
            c@ == cube_neg(self@),
    {
        proof {
            use_type_invariant(self);
        }
        HexCoordinates { x: -self.x, y: -self.y, z: -self.z }
    }

    /// Componentwise vector difference of two coordinates.
    pub fn sub(self, other: Self) -> (c: Self)
        requires
            i32::MIN <= self@.x - other@.x <= i32::MAX,
            i32::MIN <= self@.y - other@.y <= i32::MAX,
            i32::MIN <= self@.z - other@.z <= i32::MAX,
        ensures
            c@ == cube_sub(self@, other@),
    {
        proof {
            use_type_invariant(self);
            use_type_invariant(other);
        }
        HexCoordinates { x: self.x - other.x, y: self.y - other.y, z: self.z - other.z }
    }
}

/// Law: grid distance is symmetric, and the distance from a cell to
/// itself is zero.
pub proof fn lemma_distance_symmetric(a: HexCoordinates, b: HexCoordinates)
    ensures
        cube_distance(a@, b@) == cube_distance(b@, a@),
        cube_distance(a@, a@) == 0,
{
}

/// Law: for every direction, the neighbor in that direction lies at grid
/// distance exactly one.
pub proof fn lemma_neighbor_distance(c: HexCoordinates, d: int)
    requires
        0 <= d < 6,
    ensures
        cube_distance(c@, cube_add(c@, direction_offset(d))) == 1,
{
}

/// Law: between balanced cube coordinates, grid distance one holds
/// exactly for the six direction neighbors.
pub proof fn lemma_unit_distance_is_neighbor(a: Cube, b: Cube)
    requires
        a.x + a.y + a.z == 0,
        b.x + b.y + b.z == 0,
        cube_distance(a, b) == 1,
    ensures
        exists|d: int| 0 <= d < 6 && b == cube_add(a, direction_offset(d)),
{
    let dx = b.x - a.x;
    let dy = b.y - a.y;
    let dz = b.z - a.z;
    // The axis deltas sum to zero, so their taxicab length is even; with
    // distance one it is exactly two, leaving one axis unchanged and the
    // other two opposite unit steps: the six direction vectors.
    assert(abs(dx) + abs(dy) + abs(dz) == 2);
    if dx == 1 && dy == -1 {
        assert(b == cube_add(a, direction_offset(0)));
    } else if dx == 1 && dz == -1 {
        assert(b == cube_add(a, direction_offset(1)));
    } else if dy == 1 && dz == -1 {
        assert(b == cube_add(a, direction_offset(2)));
    } else if dx == -1 && dy == 1 {
        assert(b == cube_add(a, direction_offset(3)));
    } else if dx == -1 && dz == 1 {
        assert(b == cube_add(a, direction_offset(4)));
    } else {
        assert(dy == -1 && dz == 1);
        assert(b == cube_add(a, direction_offset(5)));
    }
}

} // verus!
