//! Flood-fill propagation of light through a world.

use std::collections::VecDeque;
use vstd::prelude::*;
use crate::physics::coordinates::{lemma_faces_are_the_adjacent, Coordinates};
use crate::physics::region::in_box;
use crate::lighting::color::{cost_of_step, dim, is_unlit, merge, outshines};
use crate::lighting::color::{dark, dimmed, is_dark, merged, within};
use crate::lighting::color::{lemma_dimmed, lemma_merged_is_join, lemma_within_order};
use crate::lighting::field::{
    below_every_settled, emits, field_within, headroom, is_flood, offered, passable, passable_set,
    relaxed, replaced, served, settled,
};
use crate::lighting::field::{
    lemma_flood_congruent, lemma_raise_keeps_emitting, lemma_raise_keeps_relaxed, lemma_raise_stays_below,
    lemma_raise_uses_headroom, lemma_served_is_relaxed,
};
use crate::lighting::lighting_world::{
    bounded, lemma_same_medium_is_as_bounded, light_field, opacity_field, same_medium,
    LightingWorld,
};

verus! {

/// Trait for querying block transparency in the world.
///
/// `transparent_at` is the model that `is_transparent` is held to; it is
/// never executed.
pub trait LightGrid {
    /// Whether the block at a position lets light through.
    spec fn transparent_at(&self, x: i32, y: i32, z: i32) -> bool;

    /// Returns `true` if the block at the given position allows light to pass through.
    fn is_transparent(&self, x: i32, y: i32, z: i32) -> (transparent: bool)
        ensures
            transparent == self.transparent_at(x, y, z),
    ;
}

/// A value is in a sequence after a push exactly if it was in it before or
/// is the value pushed.
pub(crate) proof fn lemma_push_contains<A>(s: Seq<A>, x: A, y: A)
    ensures
        s.push(x).contains(y) <==> (s.contains(y) || y == x),
{
    if s.contains(y) {
        let i = choose|i: int| 0 <= i < s.len() && s[i] == y;
        assert(s.push(x)[i] == y);
    }
    if y == x {
        assert(s.push(x)[s.len() as int] == y);
    }
}

/// A value is in a non-empty sequence exactly if it is the head or is in the
/// tail.
pub(crate) proof fn lemma_tail_contains<A>(s: Seq<A>, y: A)
    requires
        s.len() > 0,
    ensures
        s.contains(y) <==> (y == s[0] || s.subrange(1, s.len() as int).contains(y)),
{
    let tail = s.subrange(1, s.len() as int);
    if s.contains(y) {
        let i = choose|i: int| 0 <= i < s.len() && s[i] == y;
        if i > 0 {
            assert(tail[i - 1] == y);
        }
    }
    if tail.contains(y) {
        let i = choose|i: int| 0 <= i < tail.len() && tail[i] == y;
        assert(s[i + 1] == y);
    }
}

/// Runs the worklist to exhaustion: every queued position offers its light to
/// its six neighbours, and each neighbour that gains light is queued in turn.
pub(crate) fn spread<W: LightingWorld>(
    world: &mut W,
    queue: VecDeque<Coordinates>,
    attenuation: u8,
    Ghost(opacity): Ghost<spec_fn(Coordinates) -> u8>,
    Ghost(base): Ghost<spec_fn(Coordinates) -> [u8; 3]>,
    Ghost(sources): Ghost<Set<Coordinates>>,
)
    requires
        old(world).wf(),
        passable_set(opacity).finite(),
        forall|c: Coordinates| old(world).opacity_at(c) == #[trigger] opacity(c),
        forall|c: Coordinates| old(world).light_at(c) == #[trigger] base(c),
        forall|c: Coordinates| sources.contains(c) <==> queue@.contains(c),
    ensures
        final(world).wf(),
        same_medium(*old(world), *final(world)),
        is_flood(opacity, attenuation, base, sources, light_field(*final(world))),
{
    let mut queue = queue;
    proof {
        assert forall|p: Coordinates| #[trigger]
            emits(base, sources, light_field(*world), p) && !queue@.contains(p) implies relaxed(
            opacity,
            attenuation,
            light_field(*world),
            p,
        ) by {}
        assert forall|c: Coordinates| #[trigger]
            within(base(c), light_field(*world)(c)) by {
            lemma_within_order(base(c), base(c), base(c));
        }
        assert forall|other: spec_fn(Coordinates) -> [u8; 3]| #[trigger]
            settled(opacity, attenuation, base, sources, other) implies field_within(
            light_field(*world),
            other,
        ) by {
            assert forall|c: Coordinates| #[trigger]
                within(light_field(*world)(c), other(c)) by {
                assert(within(base(c), other(c)));
            }
        }
    }
    while queue.len() > 0
        invariant
            world.wf(),
            same_medium(*old(world), *world),
            forall|c: Coordinates| old(world).opacity_at(c) == #[trigger] opacity(c),
            passable_set(opacity).finite(),
            field_within(base, light_field(*world)),
            forall|i: int|
                0 <= i < queue@.len() ==> emits(
                    base,
                    sources,
                    light_field(*world),
                    #[trigger] queue@[i],
                ),
            forall|p: Coordinates| #[trigger]
                emits(base, sources, light_field(*world), p) && !queue@.contains(p) ==> relaxed(
                    opacity,
                    attenuation,
                    light_field(*world),
                    p,
                ),
            below_every_settled(opacity, attenuation, base, sources, light_field(*world)),
        decreases headroom(opacity, light_field(*world)), queue@.len(),
    {
        let ghost waiting = queue@;
        let popped = queue.pop_front();
        let p = popped.unwrap();
        let light = world.get_light(p);
        let ghost start = *world;
        let ghost rest = queue@;
        proof {
            assert(emits(base, sources, light_field(*world), waiting[0]));
            assert forall|q: Coordinates| #[trigger]
                emits(base, sources, light_field(*world), q) && !queue@.contains(q) && q
                    != p implies relaxed(opacity, attenuation, light_field(*world), q) by {
                lemma_tail_contains(waiting, q);
            }
            assert forall|i: int| 0 <= i < queue@.len() implies emits(
                base,
                sources,
                light_field(*world),
                #[trigger] queue@[i],
            ) by {
                assert(queue@[i] == waiting[i + 1]);
            }
        }
        let mut face: usize = 0;
        while face < 6
            invariant
                world.wf(),
                same_medium(*old(world), *world),
                forall|c: Coordinates| old(world).opacity_at(c) == #[trigger] opacity(c),
                passable_set(opacity).finite(),
                face <= 6,
                world.light_at(p) == light,
                field_within(base, light_field(*world)),
                emits(base, sources, light_field(*world), p),
                forall|i: int|
                    0 <= i < queue@.len() ==> emits(
                        base,
                        sources,
                        light_field(*world),
                        #[trigger] queue@[i],
                    ),
                forall|q: Coordinates| #[trigger]
                    emits(base, sources, light_field(*world), q) && !queue@.contains(q) && q
                        != p ==> relaxed(opacity, attenuation, light_field(*world), q),
                forall|k: int|
                    0 <= k < face ==> #[trigger] served(
                        opacity,
                        attenuation,
                        light_field(*world),
                        p,
                        k,
                    ),
                below_every_settled(opacity, attenuation, base, sources, light_field(*world)),
                queue@.len() >= rest.len(),
                headroom(opacity, light_field(*world)) + (queue@.len() - rest.len()) <= headroom(
                    opacity,
                    light_field(start),
                ),
            decreases 6 - face,
        {
            match p.neighbor(face) {
                Some(n) => {
                    proof {
                        lemma_faces_are_the_adjacent(p, n);
                    }
                    let opacity_here = world.get_opacity(n);
                    proof {
                        assert(opacity(n) == opacity_here);
                    }
                    if opacity_here != 255 {
                        let candidate = dim(light, cost_of_step(attenuation, opacity_here));
                        if !is_unlit(candidate) {
                            let current = world.get_light(n);
                            if outshines(candidate, current) {
                                let ghost before = *world;
                                let ghost queued = queue@;
                                let raised = merge(candidate, current);
                                world.set_light(n, raised);
                                queue.push_back(n);
                                proof {
                                    let was = light_field(before);
                                    let now = light_field(*world);
                                    if !before.contains(n) {
                                        before.lemma_outside_is_opaque(n);
                                    }
                                    assert(candidate == offered(opacity, attenuation, was, p, n));
                                    assert(replaced(was, now, n, raised));
                                    lemma_merged_is_join(candidate, current, raised);
                                    lemma_raise_uses_headroom(opacity, was, now, n, raised);
                                    lemma_raise_stays_below(
                                        opacity,
                                        attenuation,
                                        base,
                                        sources,
                                        was,
                                        now,
                                        p,
                                        n,
                                    );
                                    assert(within(base(n), was(n)));
                                    lemma_within_order(base(n), was(n), raised);
                                    assert forall|c: Coordinates| #[trigger]
                                        within(base(c), now(c)) by {
                                        assert(within(base(c), was(c)));
                                    }
                                    lemma_raise_keeps_emitting(
                                        base,
                                        sources,
                                        was,
                                        now,
                                        n,
                                        raised,
                                        p,
                                    );
                                    assert forall|i: int| 0 <= i < queue@.len() implies emits(
                                        base,
                                        sources,
                                        now,
                                        #[trigger] queue@[i],
                                    ) by {
                                        if i < queued.len() {
                                            assert(emits(base, sources, was, queued[i]));
                                            lemma_raise_keeps_emitting(
                                                base,
                                                sources,
                                                was,
                                                now,
                                                n,
                                                raised,
                                                queued[i],
                                            );
                                        } else {
                                            assert(queue@[i] == n);
                                            if raised == base(n) {
                                                lemma_within_order(was(n), raised, was(n));
                                            }
                                        }
                                    }
                                    assert forall|q: Coordinates| #[trigger]
                                        emits(base, sources, now, q) && !queue@.contains(q) && q
                                            != p implies relaxed(opacity, attenuation, now, q) by {
                                        lemma_push_contains(queued, n, q);
                                        assert(now(q) == was(q));
                                        assert(emits(base, sources, was, q));
                                        lemma_raise_keeps_relaxed(
                                            opacity,
                                            attenuation,
                                            was,
                                            now,
                                            n,
                                            raised,
                                            q,
                                        );
                                    }
                                    lemma_raise_keeps_relaxed(
                                        opacity,
                                        attenuation,
                                        was,
                                        now,
                                        n,
                                        raised,
                                        p,
                                    );
                                    assert forall|k: int| 0 <= k < face implies #[trigger] served(
                                        opacity,
                                        attenuation,
                                        now,
                                        p,
                                        k,
                                    ) by {
                                        assert(served(opacity, attenuation, was, p, k));
                                    }
                                }
                            }
                        } else {
                            proof {
                                lemma_within_order(candidate, world.light_at(n), candidate);
                            }
                        }
                    }
                    assert(served(opacity, attenuation, light_field(*world), p, face as int));
                },
                None => {
                    assert(served(opacity, attenuation, light_field(*world), p, face as int));
                },
            }
            face += 1;
        }
        proof {
            lemma_served_is_relaxed(opacity, attenuation, light_field(*world), p);
        }
    }
    proof {
        assert forall|p: Coordinates| #[trigger]
            emits(base, sources, light_field(*world), p) implies relaxed(
            opacity,
            attenuation,
            light_field(*world),
            p,
        ) by {
            assert(!queue@.contains(p));
        }
    }
}

/// The positions named by a list of seeds.
pub open spec fn seed_positions(seeds: Seq<(Coordinates, [u8; 3])>) -> Set<Coordinates> {
    Set::new(|c: Coordinates| exists|i: int| 0 <= i < seeds.len() && (#[trigger] seeds[i]).0 == c)
}

/// `light` after the colour of every seed placed at `c` has been merged
/// into it.
pub open spec fn seeded_light(seeds: Seq<(Coordinates, [u8; 3])>, c: Coordinates, light: [u8; 3]) -> [
    u8;
    3
]
    decreases seeds.len(),
{
    if seeds.len() == 0 {
        light
    } else {
        let before = seeded_light(seeds.drop_last(), c, light);
        if seeds.last().0 == c {
            merged(before, seeds.last().1)
        } else {
            before
        }
    }
}

/// The light of a world after every seed has been merged into the voxel it
/// names. Seeds that name positions outside the world leave no trace.
pub open spec fn seeded<W: LightingWorld>(world: W, seeds: Seq<(Coordinates, [u8; 3])>) -> spec_fn(
    Coordinates,
) -> [u8; 3] {
    |c: Coordinates|
        if world.contains(c) {
            seeded_light(seeds, c, world.light_at(c))
        } else {
            world.light_at(c)
        }
}

/// `after` is what `propagate` makes of `before`: the same medium, holding
/// the flood of the seeded light from the seed positions.
pub open spec fn propagates<W: LightingWorld>(
    before: W,
    seeds: Seq<(Coordinates, [u8; 3])>,
    attenuation: u8,
    after: W,
) -> bool {
    &&& after.wf()
    &&& same_medium(before, after)
    &&& is_flood(
        opacity_field(before),
        attenuation,
        seeded(before, seeds),
        seed_positions(seeds),
        light_field(after),
    )
}

/// Propagates light outward from the given seeds by flood fill.
///
/// Each seed's colour is merged into the voxel it names by per-channel
/// maximum. Light then spreads from the seeded positions through the six
/// faces of every voxel it reaches: a step into a voxel costs `attenuation`
/// plus that voxel's opacity in every channel, a voxel of opacity 255 is never
/// entered, and a voxel keeps the per-channel maximum of what it held and what
/// reaches it. The outcome is the flood of the seeded light from the seed
/// positions: the least field that is settled.
pub fn propagate<W: LightingWorld>(
    world: &mut W,
    seeds: &[(Coordinates, [u8; 3])],
    attenuation: u8,
)
    requires
        old(world).wf(),
        bounded(*old(world)),
    ensures
        propagates(*old(world), seeds@, attenuation, *final(world)),
{
    let mut queue: VecDeque<Coordinates> = VecDeque::new();
    let mut i: usize = 0;
    while i < seeds.len()
        invariant
            world.wf(),
            same_medium(*old(world), *world),
            i <= seeds.len(),
            queue@.len() == i,
            forall|k: int| 0 <= k < i ==> #[trigger] queue@[k] == seeds@[k].0,
            forall|c: Coordinates| #[trigger]
                world.light_at(c) == seeded(*old(world), seeds@.take(i as int))(c),
        decreases seeds.len() - i,
    {
        let (position, color) = seeds[i];
        let existing = world.get_light(position);
        let ghost before = *world;
        world.set_light(position, merge(existing, color));
        queue.push_back(position);
        proof {
            let done = seeds@.take(i as int);
            let next = seeds@.take(i + 1);
            assert(next.drop_last() == done);
            assert(next.last() == seeds@[i as int]);
            assert forall|c: Coordinates| #[trigger]
                world.light_at(c) == seeded(*old(world), next)(c) by {
                assert(before.light_at(c) == seeded(*old(world), done)(c));
            }
        }
        i += 1;
    }
    let ghost opacity = opacity_field(*old(world));
    let ghost base = seeded(*old(world), seeds@);
    let ghost sources = seed_positions(seeds@);
    proof {
        assert(seeds@.take(seeds@.len() as int) == seeds@);
        assert forall|c: Coordinates| sources.contains(c) <==> queue@.contains(c) by {
            if sources.contains(c) {
                let k = choose|k: int| 0 <= k < seeds@.len() && (#[trigger] seeds@[k]).0 == c;
                assert(queue@[k] == c);
            }
            if queue@.contains(c) {
                let k = choose|k: int| 0 <= k < queue@.len() && queue@[k] == c;
                assert(seeds@[k].0 == c);
            }
        }
    }
    spread(world, queue, attenuation, Ghost(opacity), Ghost(base), Ghost(sources));
}

/// Merging seeds into a voxel that already holds at least their colours
/// changes nothing.
pub proof fn lemma_seeds_already_held(
    seeds: Seq<(Coordinates, [u8; 3])>,
    c: Coordinates,
    light: [u8; 3],
)
    requires
        forall|i: int| 0 <= i < seeds.len() && (#[trigger] seeds[i]).0 == c ==> within(seeds[i].1, light),
    ensures
        seeded_light(seeds, c, light) == light,
    decreases seeds.len(),
{
    if seeds.len() > 0 {
        let rest = seeds.drop_last();
        assert forall|i: int| 0 <= i < rest.len() && (#[trigger] rest[i]).0 == c implies within(
            rest[i].1,
            light,
        ) by {
            assert(rest[i] == seeds[i]);
        }
        lemma_seeds_already_held(rest, c, light);
        if seeds.last().0 == c {
            assert(seeds[seeds.len() - 1].0 == c);
            lemma_merged_is_join(light, seeds.last().1, light);
        }
    }
}

/// Seeds leave alone what they do not name.
pub proof fn lemma_unseeded_is_unchanged(
    seeds: Seq<(Coordinates, [u8; 3])>,
    c: Coordinates,
    light: [u8; 3],
)
    requires
        !seed_positions(seeds).contains(c),
    ensures
        seeded_light(seeds, c, light) == light,
    decreases seeds.len(),
{
    if seeds.len() > 0 {
        let rest = seeds.drop_last();
        assert(seeds[seeds.len() - 1].0 != c);
        assert forall|i: int| 0 <= i < rest.len() implies (#[trigger] rest[i]).0 != c by {
            assert(rest[i] == seeds[i]);
        }
        lemma_unseeded_is_unchanged(rest, c, light);
    }
}

/// Seeding merges what the seeds alone amount to into the light that was
/// there.
pub proof fn lemma_seeding_is_one_merge(
    seeds: Seq<(Coordinates, [u8; 3])>,
    c: Coordinates,
    light: [u8; 3],
)
    ensures
        seeded_light(seeds, c, light) == merged(light, seeded_light(seeds, c, dark())),
    decreases seeds.len(),
{
    if seeds.len() == 0 {
        lemma_merged_is_join(light, dark(), light);
        lemma_within_order(light, light, light);
    } else {
        let rest = seeds.drop_last();
        lemma_seeding_is_one_merge(rest, c, light);
        if seeds.last().0 == c {
            let alone = seeded_light(rest, c, dark());
            crate::lighting::color::lemma_same_channels(
                merged(merged(light, alone), seeds.last().1),
                merged(light, merged(alone, seeds.last().1)),
            );
        }
    }
}

/// Seeding with two lists one after the other is seeding with the second
/// what the first has left.
pub proof fn lemma_seeding_in_turn(
    first: Seq<(Coordinates, [u8; 3])>,
    second: Seq<(Coordinates, [u8; 3])>,
    c: Coordinates,
    light: [u8; 3],
)
    ensures
        seeded_light(first + second, c, light) == seeded_light(
            second,
            c,
            seeded_light(first, c, light),
        ),
    decreases second.len(),
{
    if second.len() == 0 {
        assert(first + second == first);
    } else {
        assert((first + second).drop_last() == first + second.drop_last());
        assert((first + second).last() == second.last());
        lemma_seeding_in_turn(first, second.drop_last(), c, light);
    }
}

/// The position in column `(x, z)` at height `y`.
pub open spec fn at_height(x: i32, y: int, z: i32) -> Coordinates {
    Coordinates { x, y: y as i32, z }
}

/// Every voxel of column `(x, z)` from height `low` up to height `top` lets
/// light in.
pub open spec fn clear_between(
    opacity: spec_fn(Coordinates) -> u8,
    x: i32,
    z: i32,
    low: int,
    top: int,
) -> bool {
    forall|y: int| low <= y <= top ==> passable(opacity, #[trigger] at_height(x, y, z))
}

/// The summed opacity of the voxels of column `(x, z)` from height `low` up
/// to height `top`.
pub open spec fn column_cost(
    opacity: spec_fn(Coordinates) -> u8,
    x: i32,
    z: i32,
    low: int,
    top: int,
) -> nat
    decreases top - low + 1,
{
    if low > top {
        0
    } else {
        opacity(at_height(x, low, z)) as nat + column_cost(opacity, x, z, low + 1, top)
    }
}

/// The sky reaches the voxel straight down from the top of the box.
pub open spec fn sees_sky(
    opacity: spec_fn(Coordinates) -> u8,
    min: Coordinates,
    max: Coordinates,
    c: Coordinates,
) -> bool {
    in_box(c, min, max) && clear_between(opacity, c.x, c.z, c.y as int, max.y as int)
}

/// What is left of the sky colour at a voxel after the opacity of the voxel
/// and of every voxel above it, up to the top of the box, has been taken off.
pub open spec fn sky_light(
    opacity: spec_fn(Coordinates) -> u8,
    max: Coordinates,
    sky_color: [u8; 3],
    c: Coordinates,
) -> [u8; 3] {
    dimmed(sky_color, column_cost(opacity, c.x, c.z, c.y as int, max.y as int) as int)
}

/// The light of a world after the column scan: every voxel that sees the sky
/// holds its sky light, every other voxel what it held.
pub open spec fn sky_lit<W: LightingWorld>(
    world: W,
    min: Coordinates,
    max: Coordinates,
    sky_color: [u8; 3],
) -> spec_fn(Coordinates) -> [u8; 3] {
    |c: Coordinates|
        if sees_sky(opacity_field(world), min, max, c) {
            sky_light(opacity_field(world), max, sky_color, c)
        } else {
            world.light_at(c)
        }
}

/// The voxels that see the sky and receive some light from it.
pub open spec fn sky_sources<W: LightingWorld>(
    world: W,
    min: Coordinates,
    max: Coordinates,
    sky_color: [u8; 3],
) -> Set<Coordinates> {
    Set::new(
        |c: Coordinates|
            sees_sky(opacity_field(world), min, max, c) && !is_dark(
                sky_light(opacity_field(world), max, sky_color, c),
            ),
    )
}

/// The column scan has dealt with the voxel: it lies in the box, in a column
/// before column `(x, z)` or in that column above height `y`.
spec fn scanned(
    min: Coordinates,
    max: Coordinates,
    x: int,
    z: int,
    y: int,
    c: Coordinates,
) -> bool {
    in_box(c, min, max) && (c.x < x || (c.x == x && (c.z < z || (c.z == z && c.y > y))))
}

/// What holds of the world and the collected seeds while the column scan is
/// at column `(x, z)` and has dealt with it above height `y`.
spec fn scan_state<W: LightingWorld>(
    before: W,
    world: W,
    seeds: Seq<(Coordinates, [u8; 3])>,
    min: Coordinates,
    max: Coordinates,
    sky_color: [u8; 3],
    x: int,
    z: int,
    y: int,
) -> bool {
    let opacity = opacity_field(before);
    &&& forall|c: Coordinates| #[trigger]
        world.light_at(c) == if scanned(min, max, x, z, y, c) && sees_sky(opacity, min, max, c) {
            sky_light(opacity, max, sky_color, c)
        } else {
            before.light_at(c)
        }
    &&& forall|i: int|
        0 <= i < seeds.len() ==> {
            let c = (#[trigger] seeds[i]).0;
            &&& scanned(min, max, x, z, y, c)
            &&& sees_sky(opacity, min, max, c)
            &&& seeds[i].1 == sky_light(opacity, max, sky_color, c)
            &&& !is_dark(seeds[i].1)
        }
    &&& forall|c: Coordinates|
        scanned(min, max, x, z, y, c) && sees_sky(opacity, min, max, c) && !is_dark(
            #[trigger] sky_light(opacity, max, sky_color, c),
        ) ==> seed_positions(seeds).contains(c)
}

/// `after` is what `propagate_sky` makes of `before`: the same medium,
/// holding the flood of the sky-lit columns from the voxels the sky lit.
pub open spec fn propagates_sky<W: LightingWorld>(
    before: W,
    min: Coordinates,
    max: Coordinates,
    sky_color: [u8; 3],
    attenuation: u8,
    after: W,
) -> bool {
    &&& after.wf()
    &&& same_medium(before, after)
    &&& is_flood(
        opacity_field(before),
        attenuation,
        sky_lit(before, min, max, sky_color),
        sky_sources(before, min, max, sky_color),
        light_field(after),
    )
}

/// Seeds sky light down every column of a box and spreads it by flood fill.
///
/// For each `(x, z)` of the box the column is scanned from `max.y` down to
/// `min.y` with a running intensity that starts at `sky_color`. A voxel of
/// opacity 255 ends the column. Any other voxel takes its opacity off the
/// running intensity and is set to what remains; going straight down costs
/// nothing else. The voxels that received light are then the sources of one
/// flood with the given `attenuation`.
pub fn propagate_sky<W: LightingWorld>(
    world: &mut W,
    min: Coordinates,
    max: Coordinates,
    sky_color: [u8; 3],
    attenuation: u8,
)
    requires
        old(world).wf(),
        bounded(*old(world)),
    ensures
        propagates_sky(*old(world), min, max, sky_color, attenuation, *final(world)),
{
    let ghost opacity = opacity_field(*old(world));
    let mut seeds: Vec<(Coordinates, [u8; 3])> = Vec::new();
    let mut x: i64 = min.x as i64;
    while x <= max.x as i64
        invariant
            world.wf(),
            same_medium(*old(world), *world),
            bounded(*old(world)),
            opacity == opacity_field(*old(world)),
            min.x <= x,
            x <= max.x + 1 || x == min.x,
            scan_state(*old(world), *world, seeds@, min, max, sky_color, x as int, min.z as int, max.y as int),
        decreases max.x + 1 - x,
    {
        let mut z: i64 = min.z as i64;
        while z <= max.z as i64
            invariant
                world.wf(),
                same_medium(*old(world), *world),
                opacity == opacity_field(*old(world)),
                min.x <= x <= max.x,
                min.z <= z,
                z <= max.z + 1 || z == min.z,
                scan_state(*old(world), *world, seeds@, min, max, sky_color, x as int, z as int, max.y as int),
            decreases max.z + 1 - z,
        {
            let mut y: i64 = max.y as i64;
            let mut running = sky_color;
            let mut blocked = false;
            proof {
                lemma_dimmed(sky_color, sky_color, 0, 0);
            }
            while y >= min.y as i64 && !blocked
                invariant
                    world.wf(),
                    same_medium(*old(world), *world),
                    opacity == opacity_field(*old(world)),
                    min.x <= x <= max.x,
                    min.z <= z <= max.z,
                    min.y - 1 <= y || y == max.y,
                    y <= max.y,
                    scan_state(*old(world), *world, seeds@, min, max, sky_color, x as int, z as int, y as int),
                    clear_between(opacity, x as i32, z as i32, y + 1, max.y as int),
                    running == dimmed(
                        sky_color,
                        column_cost(opacity, x as i32, z as i32, y + 1, max.y as int) as int,
                    ),
                    blocked ==> min.y <= y && !passable(opacity, at_height(x as i32, y as int, z as i32)),
                decreases y - min.y + 1, if blocked { 0int } else { 1int },
            {
                let here = Coordinates::new(x as i32, y as i32, z as i32);
                let opacity_here = world.get_opacity(here);
                if opacity_here == 255 {
                    blocked = true;
                } else {
                    let ghost before = *world;
                    let ghost collected = seeds@;
                    let ghost above = running;
                    running = dim(running, opacity_here);
                    world.set_light(here, running);
                    if !is_unlit(running) {
                        seeds.push((here, running));
                    }
                    proof {
                        assert(here == at_height(x as i32, y as int, z as i32));
                        assert(opacity(here) == opacity_here);
                        if !before.contains(here) {
                            before.lemma_outside_is_opaque(here);
                        }
                        lemma_dimmed(
                            sky_color,
                            sky_color,
                            column_cost(opacity, x as i32, z as i32, y + 1, max.y as int) as int,
                            opacity_here as int,
                        );
                        assert(running == sky_light(opacity, max, sky_color, here));
                        assert(clear_between(opacity, x as i32, z as i32, y as int, max.y as int)) by {
                            assert forall|h: int| y <= h <= max.y implies passable(
                                opacity,
                                #[trigger] at_height(x as i32, h, z as i32),
                            ) by {
                                if h > y {
                                    assert(clear_between(
                                        opacity,
                                        x as i32,
                                        z as i32,
                                        y + 1,
                                        max.y as int,
                                    ));
                                }
                            }
                        }
                        assert(sees_sky(opacity, min, max, here));
                        let below: int = y - 1;
                        assert forall|c: Coordinates| #[trigger]
                            scanned(min, max, x as int, z as int, below, c) <==> (scanned(
                                min,
                                max,
                                x as int,
                                z as int,
                                y as int,
                                c,
                            ) || c == here) by {}
                        assert forall|i: int| 0 <= i < seeds@.len() implies {
                            let c = (#[trigger] seeds@[i]).0;
                            &&& scanned(min, max, x as int, z as int, below, c)
                            &&& sees_sky(opacity, min, max, c)
                            &&& seeds@[i].1 == sky_light(opacity, max, sky_color, c)
                            &&& !is_dark(seeds@[i].1)
                        } by {
                            if i < collected.len() {
                                assert(seeds@[i] == collected[i]);
                            }
                        }
                        assert forall|c: Coordinates|
                            scanned(min, max, x as int, z as int, below, c) && sees_sky(
                                opacity,
                                min,
                                max,
                                c,
                            ) && !is_dark(#[trigger] sky_light(opacity, max, sky_color, c)) implies seed_positions(
                            seeds@,
                        ).contains(c) by {
                            if c == here {
                                assert(seeds@[collected.len() as int].0 == c);
                            } else {
                                assert(seed_positions(collected).contains(c));
                                let i = choose|i: int|
                                    0 <= i < collected.len() && (#[trigger] collected[i]).0 == c;
                                assert(seeds@[i].0 == c);
                            }
                        }
                    }
                    y -= 1;
                }
            }
            proof {
                let next_z: int = z + 1;
                assert forall|c: Coordinates|
                    (#[trigger] scanned(min, max, x as int, next_z, max.y as int, c) && sees_sky(
                        opacity,
                        min,
                        max,
                        c,
                    )) <==> (scanned(min, max, x as int, z as int, y as int, c) && sees_sky(
                        opacity,
                        min,
                        max,
                        c,
                    )) by {
                    if scanned(min, max, x as int, next_z, max.y as int, c) && !scanned(
                        min,
                        max,
                        x as int,
                        z as int,
                        y as int,
                        c,
                    ) && sees_sky(opacity, min, max, c) {
                        assert(blocked);
                        assert(passable(opacity, at_height(c.x, y as int, c.z)));
                    }
                }
            }
            z += 1;
        }
        proof {
            let next_x: int = x + 1;
            let past_z: int = max.z + 1;
            assert forall|c: Coordinates| #[trigger]
                scanned(min, max, next_x, min.z as int, max.y as int, c) <==> scanned(
                    min,
                    max,
                    x as int,
                    past_z,
                    max.y as int,
                    c,
                ) by {}
        }
        x += 1;
    }
    let ghost lit = *world;
    proof {
        lemma_same_medium_is_as_bounded(*old(world), lit);
    }
    propagate(world, seeds.as_slice(), attenuation);
    proof {
        let base = sky_lit(*old(world), min, max, sky_color);
        let sources = sky_sources(*old(world), min, max, sky_color);
        assert forall|c: Coordinates| #[trigger] seeded(lit, seeds@)(c) == base(c) by {
            assert forall|i: int| 0 <= i < seeds@.len() && (#[trigger] seeds@[i]).0 == c implies within(
                seeds@[i].1,
                lit.light_at(c),
            ) by {
                lemma_within_order(seeds@[i].1, seeds@[i].1, seeds@[i].1);
            }
            lemma_seeds_already_held(seeds@, c, lit.light_at(c));
        }
        assert(seed_positions(seeds@) =~= sources);
        lemma_flood_congruent(
            opacity_field(lit),
            opacity,
            attenuation,
            seeded(lit, seeds@),
            base,
            sources,
            light_field(*world),
        );
    }
}

} // verus!
