//! A world made of one lightmap and a grid that says which blocks are
//! transparent.

use vstd::prelude::*;
use crate::physics::coordinates::Coordinates;
use crate::physics::region::{box_set, in_box, lemma_box_is_finite};
use crate::lighting::color::dark;
use crate::lighting::field::{passable, passable_set};
use crate::lighting::lighting_world::{bounded, opacity_field, LightingWorld};
use crate::lighting::lightmap::{
    lemma_row_major_in_range, lemma_row_major_injective, LightSource, Lightmap,
};
use crate::lighting::propagation::{
    propagate, propagate_sky, propagates, propagates_sky, LightGrid,
};

verus! {

/// A lightmap seen as a world: positions are the lightmap's own voxel
/// indices, a transparent block has opacity 0, and every other block, like
/// every position outside the lightmap, has opacity 255.
pub struct GridWorld<G: LightGrid> {
    /// The light of the region.
    pub lightmap: Lightmap,
    /// The blocks of the region.
    pub grid: G,
}

impl<G: LightGrid> GridWorld<G> {
    /// Pairs a lightmap with the grid that describes its blocks.
    pub fn new(lightmap: Lightmap, grid: G) -> (world: GridWorld<G>)
        requires
            lightmap.wf(),
        ensures
            world.lightmap == lightmap,
            world.grid == grid,
            world.wf(),
            bounded(world),
    {
        let world = GridWorld { lightmap, grid };
        proof {
            world.lemma_bounded();
        }
        world
    }

    /// Only the voxels of the lightmap can let light in, so the world is
    /// bounded.
    pub proof fn lemma_bounded(self)
        requires
            self.wf(),
        ensures
            bounded(self),
    {
        let min = Coordinates { x: 0, y: 0, z: 0 };
        let max = Coordinates { x: i32::MAX, y: i32::MAX, z: i32::MAX };
        let open = passable_set(opacity_field(self));
        assert forall|c: Coordinates| open.contains(c) implies box_set(min, max).contains(c) by {
            assert(passable(opacity_field(self), c));
            assert(in_box(c, min, max));
        }
        lemma_box_is_finite(min, max, open);
    }
}

impl<G: LightGrid> LightingWorld for GridWorld<G> {
    open spec fn wf(&self) -> bool {
        self.lightmap.wf()
    }

    open spec fn contains(&self, cords: Coordinates) -> bool {
        &&& 0 <= cords.x < self.lightmap.width()
        &&& 0 <= cords.y < self.lightmap.height()
        &&& 0 <= cords.z < self.lightmap.depth()
    }

    open spec fn opacity_at(&self, cords: Coordinates) -> u8 {
        if self.contains(cords) && self.grid.transparent_at(cords.x, cords.y, cords.z) {
            0
        } else {
            255
        }
    }

    open spec fn light_at(&self, cords: Coordinates) -> [u8; 3] {
        if self.contains(cords) {
            self.lightmap.light_at(cords.x as u32, cords.y as u32, cords.z as u32)
        } else {
            dark()
        }
    }

    proof fn lemma_outside_is_opaque(&self, cords: Coordinates) {
    }

    fn get_opacity(&self, cords: Coordinates) -> (opacity: u8) {
        if self.holds(cords) && self.grid.is_transparent(cords.x, cords.y, cords.z) {
            0
        } else {
            255
        }
    }

    fn get_light(&self, cords: Coordinates) -> (light: [u8; 3]) {
        if self.holds(cords) {
            self.lightmap.get(cords.x as u32, cords.y as u32, cords.z as u32)
        } else {
            [0, 0, 0]
        }
    }

    fn set_light(&mut self, cords: Coordinates, color: [u8; 3]) {
        if self.holds(cords) {
            let ghost before = *self;
            self.lightmap.set(cords.x as u32, cords.y as u32, cords.z as u32, color);
            proof {
                assert forall|c: Coordinates| #[trigger]
                    self.light_at(c) == if c == cords && before.contains(c) {
                        color
                    } else {
                        before.light_at(c)
                    } by {
                    let w = before.lightmap.width() as int;
                    let h = before.lightmap.height() as int;
                    let d = before.lightmap.depth() as int;
                    lemma_row_major_in_range(w, h, d, cords.x as int, cords.y as int, cords.z as int);
                    if before.contains(c) {
                        lemma_row_major_in_range(w, h, d, c.x as int, c.y as int, c.z as int);
                    }
                    if before.contains(c) && c != cords {
                        if before.lightmap.spec_index(c.x as u32, c.y as u32, c.z as u32)
                            == before.lightmap.spec_index(
                            cords.x as u32,
                            cords.y as u32,
                            cords.z as u32,
                        ) {
                            lemma_row_major_injective(
                                before.lightmap.width() as int,
                                before.lightmap.height() as int,
                                c.x as int,
                                c.y as int,
                                c.z as int,
                                cords.x as int,
                                cords.y as int,
                                cords.z as int,
                            );
                        }
                    }
                }
            }
        }
    }
}

impl<G: LightGrid> GridWorld<G> {
    /// Returns `true` when the position is a voxel of the lightmap.
    pub fn holds(&self, cords: Coordinates) -> (inside: bool)
        ensures
            inside == self.contains(cords),
    {
        cords.x >= 0 && (cords.x as u32) < self.lightmap.width() && cords.y >= 0 && (
        cords.y as u32) < self.lightmap.height() && cords.z >= 0 && (cords.z as u32)
            < self.lightmap.depth()
    }
}

/// The seed that a light source stands for: its voxel as a position, with
/// its colour.
pub open spec fn seed_of(source: LightSource) -> (Coordinates, [u8; 3]) {
    (Coordinates { x: source.x as i32, y: source.y as i32, z: source.z as i32 }, source.color)
}

/// The seeds of those light sources that lie inside a lightmap, in their
/// order.
pub open spec fn seeds_inside(sources: Seq<LightSource>, lightmap: Lightmap) -> Seq<
    (Coordinates, [u8; 3]),
>
    decreases sources.len(),
{
    if sources.len() == 0 {
        Seq::empty()
    } else {
        let before = seeds_inside(sources.drop_last(), lightmap);
        let last = sources.last();
        if lightmap.holds(last.x, last.y, last.z) {
            before.push(seed_of(last))
        } else {
            before
        }
    }
}

/// The largest index along an axis of the given length, as a coordinate; -1
/// for an axis of length zero.
pub open spec fn last_along(length: u32) -> i32 {
    if length > i32::MAX {
        i32::MAX
    } else {
        (length - 1) as i32
    }
}

fn last_index(length: u32) -> (last: i32)
    ensures
        last == last_along(length),
{
    if length > i32::MAX as u32 {
        i32::MAX
    } else {
        length as i32 - 1
    }
}

impl<G: LightGrid> GridWorld<G> {
    /// The corner of the lightmap with the largest coordinates.
    pub open spec fn far_corner(&self) -> Coordinates {
        Coordinates {
            x: last_along(self.lightmap.width()),
            y: last_along(self.lightmap.height()),
            z: last_along(self.lightmap.depth()),
        }
    }

    /// Propagates block light from point sources using flood fill.
    ///
    /// Each RGB channel is attenuated independently by `attenuation` per block
    /// of distance. Light only spreads through transparent blocks (as reported
    /// by the grid). Sources outside the lightmap are ignored.
    pub fn propagate(&mut self, sources: &[LightSource], attenuation: u8)
        requires
            old(self).wf(),
        ensures
            propagates(
                *old(self),
                seeds_inside(sources@, old(self).lightmap),
                attenuation,
                *final(self),
            ),
    {
        let mut seeds: Vec<(Coordinates, [u8; 3])> = Vec::new();
        let mut i: usize = 0;
        while i < sources.len()
            invariant
                i <= sources.len(),
                seeds@ == seeds_inside(sources@.take(i as int), self.lightmap),
            decreases sources.len() - i,
        {
            let source = &sources[i];
            proof {
                assert(sources@.take(i + 1).drop_last() == sources@.take(i as int));
            }
            if source.x < self.lightmap.width() && source.y < self.lightmap.height() && source.z
                < self.lightmap.depth() {
                seeds.push(
                    (Coordinates::new(source.x as i32, source.y as i32, source.z as i32), source.color),
                );
            }
            i += 1;
        }
        proof {
            assert(sources@.take(sources@.len() as int) == sources@);
            self.lemma_bounded();
        }
        propagate(self, seeds.as_slice(), attenuation);
    }

    /// Propagates sky light downward and then spreads it via flood fill.
    ///
    /// For each (x, z) column, all voxels above the highest opaque block
    /// receive full `sky_color`. Below that, light spreads through
    /// transparent blocks with `attenuation` per step.
    pub fn propagate_sky(&mut self, sky_color: [u8; 3], attenuation: u8)
        requires
            old(self).wf(),
        ensures
            propagates_sky(
                *old(self),
                Coordinates { x: 0, y: 0, z: 0 },
                old(self).far_corner(),
                sky_color,
                attenuation,
                *final(self),
            ),
    {
        let min = Coordinates::new(0, 0, 0);
        let max = Coordinates::new(
            last_index(self.lightmap.width()),
            last_index(self.lightmap.height()),
            last_index(self.lightmap.depth()),
        );
        proof {
            self.lemma_bounded();
        }
        propagate_sky(self, min, max, sky_color, attenuation);
    }
}

} // verus!
