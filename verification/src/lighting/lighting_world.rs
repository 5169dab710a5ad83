//! The query interface through which the lighting algorithms see a world.

use vstd::prelude::*;
use crate::physics::coordinates::Coordinates;
use crate::lighting::field::passable_set;

verus! {

/// Unified trait for the engine to interact with a game's world data.
///
/// A world answers for every position. It stores light for the positions it
/// `contains`; everywhere else it reports full opacity, so that light never
/// leaves the stored region, and writes there are dropped.
///
/// `wf`, `contains`, `opacity_at` and `light_at` are the model of the world
/// that the three accessors are held to; they are never executed.
pub trait LightingWorld: Sized {
    /// The implementation's own validity condition.
    spec fn wf(&self) -> bool;

    /// Whether the world stores light for this position.
    spec fn contains(&self, cords: Coordinates) -> bool;

    /// The opacity of the block at a position.
    spec fn opacity_at(&self, cords: Coordinates) -> u8;

    /// The light held at a position.
    spec fn light_at(&self, cords: Coordinates) -> [u8; 3];

    /// Positions outside the stored region are fully opaque.
    proof fn lemma_outside_is_opaque(&self, cords: Coordinates)
        requires
            self.wf(),
            !self.contains(cords),
        ensures
            self.opacity_at(cords) == 255,
    ;

    /// Returns the opacity of the block at the given coordinates.
    /// 0 = fully transparent (air, glass), 255 = fully opaque (stone, dirt).
    fn get_opacity(&self, cords: Coordinates) -> (opacity: u8)
        requires
            self.wf(),
        ensures
            opacity == self.opacity_at(cords),
    ;

    /// Returns the light held at the given coordinates.
    fn get_light(&self, cords: Coordinates) -> (light: [u8; 3])
        requires
            self.wf(),
        ensures
            light == self.light_at(cords),
    ;

    /// Stores `color` at the given coordinates where the world contains them,
    /// and changes nothing else.
    fn set_light(&mut self, cords: Coordinates, color: [u8; 3])
        requires
            old(self).wf(),
        ensures
            final(self).wf(),
            forall|c: Coordinates| #[trigger] final(self).contains(c) == old(self).contains(c),
            forall|c: Coordinates| #[trigger] final(self).opacity_at(c) == old(self).opacity_at(c),
            forall|c: Coordinates| #[trigger]
                final(self).light_at(c) == if c == cords && old(self).contains(c) {
                    color
                } else {
                    old(self).light_at(c)
                },
    ;
}

/// The opacity of every position of a world.
pub open spec fn opacity_field<W: LightingWorld>(world: W) -> spec_fn(Coordinates) -> u8 {
    |c: Coordinates| world.opacity_at(c)
}

/// The light at every position of a world.
pub open spec fn light_field<W: LightingWorld>(world: W) -> spec_fn(Coordinates) -> [u8; 3] {
    |c: Coordinates| world.light_at(c)
}

/// Two states of a world store the same region and have the same opacities.
pub open spec fn same_medium<W: LightingWorld>(before: W, after: W) -> bool {
    &&& forall|c: Coordinates| #[trigger] after.contains(c) == before.contains(c)
    &&& forall|c: Coordinates| #[trigger] after.opacity_at(c) == before.opacity_at(c)
}

/// Only finitely many voxels of the world let light in.
pub open spec fn bounded<W: LightingWorld>(world: W) -> bool {
    passable_set(opacity_field(world)).finite()
}

/// A world with the same medium as a bounded world is bounded.
pub proof fn lemma_same_medium_is_as_bounded<W: LightingWorld>(before: W, after: W)
    requires
        same_medium(before, after),
        bounded(before),
    ensures
        bounded(after),
{
    assert forall|c: Coordinates|
        passable_set(opacity_field(after)).contains(c) == passable_set(
            opacity_field(before),
        ).contains(c) by {
        assert(after.opacity_at(c) == before.opacity_at(c));
    }
    assert(passable_set(opacity_field(after)) =~= passable_set(opacity_field(before)));
}

} // verus!
