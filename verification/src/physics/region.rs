//! Box-shaped sets of positions.

use vstd::prelude::*;
use vstd::set_lib::lemma_set_subset_finite;
use crate::physics::coordinates::Coordinates;

verus! {

/// The position lies in the box spanned by two corners, both included.
pub open spec fn in_box(c: Coordinates, min: Coordinates, max: Coordinates) -> bool {
    &&& min.x <= c.x <= max.x
    &&& min.y <= c.y <= max.y
    &&& min.z <= c.z <= max.z
}

/// The positions of the box spanned by two corners, both included.
pub open spec fn box_set(min: Coordinates, max: Coordinates) -> Set<Coordinates> {
    Set::new(|c: Coordinates| in_box(c, min, max))
}

/// The positions with `x0 <= x < x1`, `y0 <= y < y1` and `z0 <= z < z1`.
pub open spec fn cells(x0: int, x1: int, y0: int, y1: int, z0: int, z1: int) -> Set<Coordinates> {
    Set::new(|c: Coordinates| x0 <= c.x < x1 && y0 <= c.y < y1 && z0 <= c.z < z1)
}

proof fn lemma_row_is_finite(x0: int, x1: int, y: int, z: int)
    ensures
        cells(x0, x1, y, y + 1, z, z + 1).finite(),
    decreases x1 - x0,
{
    let row = cells(x0, x1, y, y + 1, z, z + 1);
    if x1 <= x0 {
        assert(row =~= Set::empty());
    } else {
        lemma_row_is_finite(x0, x1 - 1, y, z);
        let shorter = cells(x0, x1 - 1, y, y + 1, z, z + 1);
        if i32::MIN <= x1 - 1 <= i32::MAX && i32::MIN <= y <= i32::MAX && i32::MIN <= z
            <= i32::MAX {
            let last = Coordinates { x: (x1 - 1) as i32, y: y as i32, z: z as i32 };
            assert(row =~= shorter.insert(last));
        } else {
            assert(row =~= shorter);
        }
    }
}

proof fn lemma_plane_is_finite(x0: int, x1: int, y0: int, y1: int, z: int)
    ensures
        cells(x0, x1, y0, y1, z, z + 1).finite(),
    decreases y1 - y0,
{
    let plane = cells(x0, x1, y0, y1, z, z + 1);
    if y1 <= y0 {
        assert(plane =~= Set::empty());
    } else {
        lemma_plane_is_finite(x0, x1, y0, y1 - 1, z);
        lemma_row_is_finite(x0, x1, y1 - 1, z);
        assert(plane =~= cells(x0, x1, y0, y1 - 1, z, z + 1).union(
            cells(x0, x1, y1 - 1, y1, z, z + 1),
        ));
    }
}

/// A box of cells is finite.
pub proof fn lemma_cells_are_finite(x0: int, x1: int, y0: int, y1: int, z0: int, z1: int)
    ensures
        cells(x0, x1, y0, y1, z0, z1).finite(),
    decreases z1 - z0,
{
    let all = cells(x0, x1, y0, y1, z0, z1);
    if z1 <= z0 {
        assert(all =~= Set::empty());
    } else {
        lemma_cells_are_finite(x0, x1, y0, y1, z0, z1 - 1);
        lemma_plane_is_finite(x0, x1, y0, y1, z1 - 1);
        assert(all =~= cells(x0, x1, y0, y1, z0, z1 - 1).union(cells(x0, x1, y0, y1, z1 - 1, z1)));
    }
}

/// The box spanned by two corners is finite, and so is every set inside it.
pub proof fn lemma_box_is_finite(min: Coordinates, max: Coordinates, inside: Set<Coordinates>)
    requires
        inside.subset_of(box_set(min, max)),
    ensures
        box_set(min, max).finite(),
        inside.finite(),
{
    lemma_cells_are_finite(
        min.x as int,
        max.x + 1,
        min.y as int,
        max.y + 1,
        min.z as int,
        max.z + 1,
    );
    assert(box_set(min, max) =~= cells(
        min.x as int,
        max.x + 1,
        min.y as int,
        max.y + 1,
        min.z as int,
        max.z + 1,
    ));
    lemma_set_subset_finite(box_set(min, max), inside);
}

} // verus!
