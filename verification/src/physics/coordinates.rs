//! Integer block positions and their six-connected neighbourhood.

use vstd::prelude::*;
use vstd::std_specs::ops::AddSpecImpl;
use vstd::std_specs::ops::SubSpecImpl;

verus! {

/// Integer block position in the voxel world.
#[derive(Debug, Clone, Copy, PartialEq, Eq, Structural, Hash)]
pub struct Coordinates {
    /// X coordinate.
    pub x: i32,
    /// Y coordinate.
    pub y: i32,
    /// Z coordinate.
    pub z: i32,
}

/// Two positions share a face: they differ by exactly one unit along exactly
/// one axis.
pub open spec fn adjacent(a: Coordinates, b: Coordinates) -> bool {
    ||| (a.y == b.y && a.z == b.z && (a.x - b.x == 1 || b.x - a.x == 1))
    ||| (a.x == b.x && a.z == b.z && (a.y - b.y == 1 || b.y - a.y == 1))
    ||| (a.x == b.x && a.y == b.y && (a.z - b.z == 1 || b.z - a.z == 1))
}

impl Coordinates {
    /// Every component is strictly inside the `i32` range, so that all six
    /// face-adjacent positions exist.
    pub open spec fn is_interior(self) -> bool {
        &&& i32::MIN < self.x < i32::MAX
        &&& i32::MIN < self.y < i32::MAX
        &&& i32::MIN < self.z < i32::MAX
    }

    /// The position reached by moving `(dx, dy, dz)` from `self`, where it is
    /// representable.
    pub open spec fn offset(self, dx: int, dy: int, dz: int) -> Coordinates {
        Coordinates { x: (self.x + dx) as i32, y: (self.y + dy) as i32, z: (self.z + dz) as i32 }
    }

    /// The six face-adjacent positions in the order `+x, -x, +y, -y, +z, -z`.
    pub open spec fn spec_neighbors(self) -> Seq<Coordinates> {
        seq![
            self.offset(1, 0, 0),
            self.offset(-1, 0, 0),
            self.offset(0, 1, 0),
            self.offset(0, -1, 0),
            self.offset(0, 0, 1),
            self.offset(0, 0, -1),
        ]
    }

    /// The position across one face, where it is representable. Faces are
    /// numbered `0..6` in the order `+x, -x, +y, -y, +z, -z`.
    pub open spec fn spec_neighbor(self, face: int) -> Option<Coordinates> {
        let dx: int = if face == 0 { 1 } else if face == 1 { -1 } else { 0 };
        let dy: int = if face == 2 { 1 } else if face == 3 { -1 } else { 0 };
        let dz: int = if face == 4 { 1 } else if face == 5 { -1 } else { 0 };
        if i32::MIN <= self.x + dx <= i32::MAX && i32::MIN <= self.y + dy <= i32::MAX && i32::MIN
            <= self.z + dz <= i32::MAX {
            Some(self.offset(dx, dy, dz))
        } else {
            None
        }
    }

    pub fn new(x: i32, y: i32, z: i32) -> (c: Coordinates)
        ensures
            c.x == x,
            c.y == y,
            c.z == z,
    {
        Coordinates { x, y, z }
    }

    /// Returns the six face-adjacent block positions.
    pub fn neighbors(&self) -> (n: [Coordinates; 6])
        requires
            self.is_interior(),
        ensures
            n@ == self.spec_neighbors(),
    {
        let n = [
            Coordinates { x: self.x + 1, y: self.y, z: self.z },
            Coordinates { x: self.x - 1, y: self.y, z: self.z },
            Coordinates { x: self.x, y: self.y + 1, z: self.z },
            Coordinates { x: self.x, y: self.y - 1, z: self.z },
            Coordinates { x: self.x, y: self.y, z: self.z + 1 },
            Coordinates { x: self.x, y: self.y, z: self.z - 1 },
        ];
        assert(n@ =~= self.spec_neighbors());
        n
    }

    /// Returns the position across one face, or `None` where that position
    /// would leave the `i32` range.
    pub fn neighbor(&self, face: usize) -> (n: Option<Coordinates>)
        requires
            face < 6,
        ensures
            n == self.spec_neighbor(face as int),
    {
        if face == 0 {
            if self.x < i32::MAX {
                Some(Coordinates { x: self.x + 1, y: self.y, z: self.z })
            } else {
                None
            }
        } else if face == 1 {
            if self.x > i32::MIN {
                Some(Coordinates { x: self.x - 1, y: self.y, z: self.z })
            } else {
                None
            }
        } else if face == 2 {
            if self.y < i32::MAX {
                Some(Coordinates { x: self.x, y: self.y + 1, z: self.z })
            } else {
                None
            }
        } else if face == 3 {
            if self.y > i32::MIN {
                Some(Coordinates { x: self.x, y: self.y - 1, z: self.z })
            } else {
                None
            }
        } else if face == 4 {
            if self.z < i32::MAX {
                Some(Coordinates { x: self.x, y: self.y, z: self.z + 1 })
            } else {
                None
            }
        } else {
            if self.z > i32::MIN {
                Some(Coordinates { x: self.x, y: self.y, z: self.z - 1 })
            } else {
                None
            }
        }
    }
}

/// The positions across the six faces of `c` are exactly the positions
/// adjacent to it.
pub proof fn lemma_faces_are_the_adjacent(c: Coordinates, d: Coordinates)
    ensures
        adjacent(c, d) <==> exists|face: int| 0 <= face < 6 && c.spec_neighbor(face) == Some(d),
        adjacent(c, d) ==> c != d && adjacent(d, c),
{
    if adjacent(c, d) {
        let face: int = if d.x - c.x == 1 {
            0
        } else if c.x - d.x == 1 {
            1
        } else if d.y - c.y == 1 {
            2
        } else if c.y - d.y == 1 {
            3
        } else if d.z - c.z == 1 {
            4
        } else {
            5
        };
        assert(c.spec_neighbor(face) == Some(d));
    }
}

/// The neighbours of an interior position are exactly the positions adjacent
/// to it.
pub proof fn lemma_neighbors_are_the_adjacent(c: Coordinates, d: Coordinates)
    requires
        c.is_interior(),
    ensures
        adjacent(c, d) <==> c.spec_neighbors().contains(d),
{
    let n = c.spec_neighbors();
    if adjacent(c, d) {
        if d.x - c.x == 1 {
            assert(n[0] == d);
        } else if c.x - d.x == 1 {
            assert(n[1] == d);
        } else if d.y - c.y == 1 {
            assert(n[2] == d);
        } else if c.y - d.y == 1 {
            assert(n[3] == d);
        } else if d.z - c.z == 1 {
            assert(n[4] == d);
        } else {
            assert(n[5] == d);
        }
    }
    if n.contains(d) {
        let i = choose|i: int| 0 <= i < n.len() && n[i] == d;
        assert(n[i] == d);
    }
}

impl core::ops::Add for Coordinates {
    type Output = Coordinates;

    fn add(self, rhs: Coordinates) -> (sum: Coordinates) {
        Coordinates { x: self.x + rhs.x, y: self.y + rhs.y, z: self.z + rhs.z }
    }
}

impl AddSpecImpl for Coordinates {
    open spec fn obeys_add_spec() -> bool {
        true
    }

    open spec fn add_req(self, rhs: Coordinates) -> bool {
        &&& i32::MIN <= self.x + rhs.x <= i32::MAX
        &&& i32::MIN <= self.y + rhs.y <= i32::MAX
        &&& i32::MIN <= self.z + rhs.z <= i32::MAX
    }

    open spec fn add_spec(self, rhs: Coordinates) -> Coordinates {
        self.offset(rhs.x as int, rhs.y as int, rhs.z as int)
    }
}

impl core::ops::Sub for Coordinates {
    type Output = Coordinates;

    fn sub(self, rhs: Coordinates) -> (difference: Coordinates) {
        Coordinates { x: self.x - rhs.x, y: self.y - rhs.y, z: self.z - rhs.z }
    }
}

impl SubSpecImpl for Coordinates {
    open spec fn obeys_sub_spec() -> bool {
        true
    }

    open spec fn sub_req(self, rhs: Coordinates) -> bool {
        &&& i32::MIN <= self.x - rhs.x <= i32::MAX
        &&& i32::MIN <= self.y - rhs.y <= i32::MAX
        &&& i32::MIN <= self.z - rhs.z <= i32::MAX
    }

    open spec fn sub_spec(self, rhs: Coordinates) -> Coordinates {
        self.offset(-(rhs.x as int), -(rhs.y as int), -(rhs.z as int))
    }
}

} // verus!
