//! What holds of every flood.
//!
//! The propagation functions promise that the light they leave is the flood
//! of a base field from a set of sources. The theorems here are consequences
//! of that promise alone.

use vstd::prelude::*;
use crate::physics::coordinates::{adjacent, Coordinates};
use crate::physics::region::in_box;
use crate::lighting::color::{dark, dimmed, merged, step_cost, within};
use crate::lighting::color::{lemma_dimmed, lemma_merged_is_join, lemma_within_order};
use crate::lighting::field::{
    emits, field_within, is_flood, offered, passable, relaxed, settled,
};
use crate::lighting::lighting_world::{light_field, opacity_field, LightingWorld};
use crate::lighting::propagation::{
    lemma_seeding_in_turn, lemma_seeding_is_one_merge, lemma_unseeded_is_unchanged, propagates,
    seed_positions, seeded, seeded_light,
};

verus! {

/// Light stays inside any region that holds the sources and cannot be left by
/// a step into a passable voxel: outside it, a flood is the base.
pub proof fn lemma_light_stays_inside(
    opacity: spec_fn(Coordinates) -> u8,
    attenuation: u8,
    base: spec_fn(Coordinates) -> [u8; 3],
    sources: Set<Coordinates>,
    field: spec_fn(Coordinates) -> [u8; 3],
    region: Set<Coordinates>,
    c: Coordinates,
)
    requires
        is_flood(opacity, attenuation, base, sources, field),
        sources.subset_of(region),
        forall|p: Coordinates, n: Coordinates|
            region.contains(p) && #[trigger] adjacent(p, n) && passable(opacity, n)
                ==> region.contains(n),
        !region.contains(c),
    ensures
        field(c) == base(c),
{
    let kept = |x: Coordinates| if region.contains(x) { field(x) } else { base(x) };
    assert forall|x: Coordinates| #[trigger] within(base(x), kept(x)) by {
        assert(within(base(x), field(x)));
        lemma_within_order(base(x), base(x), base(x));
    }
    assert forall|p: Coordinates| #[trigger] emits(base, sources, kept, p) implies relaxed(
        opacity,
        attenuation,
        kept,
        p,
    ) by {
        assert(region.contains(p));
        assert(emits(base, sources, field, p));
        assert(relaxed(opacity, attenuation, field, p));
        assert forall|n: Coordinates| #[trigger]
            adjacent(p, n) && passable(opacity, n) implies within(
            offered(opacity, attenuation, kept, p, n),
            kept(n),
        ) by {
            assert(region.contains(n));
        }
    }
    assert(settled(opacity, attenuation, base, sources, kept));
    assert(field_within(field, kept));
    assert(within(field(c), kept(c)));
    assert(within(base(c), field(c)));
    lemma_within_order(field(c), base(c), field(c));
}

/// A voxel of opacity 255 takes no light from a flood: it holds what the base
/// gave it.
pub proof fn lemma_opaque_takes_no_light(
    opacity: spec_fn(Coordinates) -> u8,
    attenuation: u8,
    base: spec_fn(Coordinates) -> [u8; 3],
    sources: Set<Coordinates>,
    field: spec_fn(Coordinates) -> [u8; 3],
    c: Coordinates,
)
    requires
        is_flood(opacity, attenuation, base, sources, field),
        !passable(opacity, c),
    ensures
        field(c) == base(c),
{
    let kept = |x: Coordinates| if x == c { base(x) } else { field(x) };
    assert forall|x: Coordinates| #[trigger] within(base(x), kept(x)) by {
        assert(within(base(x), field(x)));
        lemma_within_order(base(x), base(x), base(x));
    }
    assert forall|p: Coordinates| #[trigger] emits(base, sources, kept, p) implies relaxed(
        opacity,
        attenuation,
        kept,
        p,
    ) by {
        assert(emits(base, sources, field, p));
        assert(relaxed(opacity, attenuation, field, p));
        assert(within(base(p), field(p)));
        assert forall|n: Coordinates| #[trigger]
            adjacent(p, n) && passable(opacity, n) implies within(
            offered(opacity, attenuation, kept, p, n),
            kept(n),
        ) by {
            let cost = step_cost(attenuation, opacity(n));
            lemma_dimmed(kept(p), field(p), cost, 0);
            lemma_within_order(
                offered(opacity, attenuation, kept, p, n),
                offered(opacity, attenuation, field, p, n),
                field(n),
            );
        }
    }
    assert(settled(opacity, attenuation, base, sources, kept));
    assert(field_within(field, kept));
    assert(within(field(c), kept(c)));
    assert(within(base(c), field(c)));
    lemma_within_order(field(c), base(c), field(c));
}

/// Where nothing is a source, a flood is the base.
pub proof fn lemma_no_sources_no_change(
    opacity: spec_fn(Coordinates) -> u8,
    attenuation: u8,
    base: spec_fn(Coordinates) -> [u8; 3],
    field: spec_fn(Coordinates) -> [u8; 3],
    c: Coordinates,
)
    requires
        is_flood(opacity, attenuation, base, Set::empty(), field),
    ensures
        field(c) == base(c),
{
    lemma_light_stays_inside(opacity, attenuation, base, Set::empty(), field, Set::empty(), c);
}

/// Where the base is dark everywhere, so is its flood, whatever the sources.
pub proof fn lemma_darkness_stays_dark(
    opacity: spec_fn(Coordinates) -> u8,
    attenuation: u8,
    base: spec_fn(Coordinates) -> [u8; 3],
    sources: Set<Coordinates>,
    field: spec_fn(Coordinates) -> [u8; 3],
    c: Coordinates,
)
    requires
        is_flood(opacity, attenuation, base, sources, field),
        forall|x: Coordinates| #[trigger] base(x) == dark(),
    ensures
        field(c) == dark(),
{
    assert forall|x: Coordinates| #[trigger] within(base(x), base(x)) by {
        lemma_within_order(base(x), base(x), base(x));
    }
    assert forall|p: Coordinates| #[trigger] emits(base, sources, base, p) implies relaxed(
        opacity,
        attenuation,
        base,
        p,
    ) by {
        assert forall|n: Coordinates| #[trigger]
            adjacent(p, n) && passable(opacity, n) implies within(
            offered(opacity, attenuation, base, p, n),
            base(n),
        ) by {
            assert(base(p) == dark());
            lemma_dimmed(base(p), base(p), step_cost(attenuation, opacity(n)), 0);
            lemma_within_order(offered(opacity, attenuation, base, p, n), base(n), base(n));
        }
    }
    assert(settled(opacity, attenuation, base, sources, base));
    assert(field_within(field, base));
    assert(within(field(c), base(c)));
    assert(base(c) == dark());
    lemma_within_order(field(c), dark(), field(c));
}

/// Light from several sources merges by maximum, channel by channel: where
/// each of two base fields is dark away from its own sources, the flood of
/// their merge from all the sources is the merge of their two floods.
pub proof fn lemma_floods_merge_by_maximum(
    opacity: spec_fn(Coordinates) -> u8,
    attenuation: u8,
    first_base: spec_fn(Coordinates) -> [u8; 3],
    first_sources: Set<Coordinates>,
    first: spec_fn(Coordinates) -> [u8; 3],
    second_base: spec_fn(Coordinates) -> [u8; 3],
    second_sources: Set<Coordinates>,
    second: spec_fn(Coordinates) -> [u8; 3],
    both_bases: spec_fn(Coordinates) -> [u8; 3],
    both: spec_fn(Coordinates) -> [u8; 3],
    c: Coordinates,
)
    requires
        is_flood(opacity, attenuation, first_base, first_sources, first),
        is_flood(opacity, attenuation, second_base, second_sources, second),
        is_flood(opacity, attenuation, both_bases, first_sources.union(second_sources), both),
        forall|x: Coordinates| !first_sources.contains(x) ==> #[trigger] first_base(x) == dark(),
        forall|x: Coordinates| !second_sources.contains(x) ==> #[trigger] second_base(x) == dark(),
        forall|x: Coordinates| #[trigger] both_bases(x) == merged(first_base(x), second_base(x)),
    ensures
        both(c) == merged(first(c), second(c)),
{
    let sources = first_sources.union(second_sources);
    let joined = |x: Coordinates| merged(first(x), second(x));
    assert forall|x: Coordinates| !sources.contains(x) implies #[trigger] both_bases(x)
        == dark() by {
        assert(first_base(x) == dark() && second_base(x) == dark());
        assert(both_bases(x) == merged(first_base(x), second_base(x)));
        lemma_merged_is_join(first_base(x), second_base(x), dark());
    }
    assert forall|x: Coordinates| #[trigger] within(first_base(x), both_bases(x)) by {
        assert(both_bases(x) == merged(first_base(x), second_base(x)));
        lemma_merged_is_join(first_base(x), second_base(x), both_bases(x));
    }
    assert forall|x: Coordinates| #[trigger] within(second_base(x), both_bases(x)) by {
        assert(both_bases(x) == merged(first_base(x), second_base(x)));
        lemma_merged_is_join(first_base(x), second_base(x), both_bases(x));
    }
    lemma_part_below_whole(
        opacity,
        attenuation,
        first_base,
        first_sources,
        first,
        both_bases,
        sources,
        both,
    );
    lemma_part_below_whole(
        opacity,
        attenuation,
        second_base,
        second_sources,
        second,
        both_bases,
        sources,
        both,
    );
    assert(within(first(c), both(c)));
    assert(within(second(c), both(c)));
    lemma_merged_is_join(first(c), second(c), both(c));

    assert forall|x: Coordinates| #[trigger] within(both_bases(x), joined(x)) by {
        assert(within(first_base(x), first(x)));
        assert(within(second_base(x), second(x)));
        assert(both_bases(x) == merged(first_base(x), second_base(x)));
        lemma_merged_is_join(first(x), second(x), joined(x));
        lemma_within_order(first_base(x), first(x), joined(x));
        lemma_within_order(second_base(x), second(x), joined(x));
        lemma_merged_is_join(first_base(x), second_base(x), joined(x));
    }
    assert forall|p: Coordinates| #[trigger] emits(both_bases, sources, joined, p) implies relaxed(
        opacity,
        attenuation,
        joined,
        p,
    ) by {
        assert forall|n: Coordinates| #[trigger]
            adjacent(p, n) && passable(opacity, n) implies within(
            offered(opacity, attenuation, joined, p, n),
            joined(n),
        ) by {
            let cost = step_cost(attenuation, opacity(n));
            lemma_dimmed(first(p), second(p), cost, 0);
            lemma_offer_is_met(opacity, attenuation, first_base, first_sources, first, p, n);
            lemma_offer_is_met(opacity, attenuation, second_base, second_sources, second, p, n);
            lemma_merged_is_join(first(n), second(n), joined(n));
            lemma_within_order(offered(opacity, attenuation, first, p, n), first(n), joined(n));
            lemma_within_order(offered(opacity, attenuation, second, p, n), second(n), joined(n));
            lemma_merged_is_join(
                offered(opacity, attenuation, first, p, n),
                offered(opacity, attenuation, second, p, n),
                joined(n),
            );
        }
    }
    assert(settled(opacity, attenuation, both_bases, sources, joined));
    assert(field_within(both, joined));
    assert(within(both(c), joined(c)));
    lemma_within_order(both(c), joined(c), both(c));
}

/// In a settled field whose base is dark away from the sources, every
/// position has met what it offers its passable neighbours, emitting or not.
pub proof fn lemma_offer_is_met(
    opacity: spec_fn(Coordinates) -> u8,
    attenuation: u8,
    base: spec_fn(Coordinates) -> [u8; 3],
    sources: Set<Coordinates>,
    field: spec_fn(Coordinates) -> [u8; 3],
    p: Coordinates,
    n: Coordinates,
)
    requires
        settled(opacity, attenuation, base, sources, field),
        forall|x: Coordinates| !sources.contains(x) ==> #[trigger] base(x) == dark(),
        adjacent(p, n),
        passable(opacity, n),
    ensures
        within(offered(opacity, attenuation, field, p, n), field(n)),
{
    if emits(base, sources, field, p) {
        assert(relaxed(opacity, attenuation, field, p));
    } else {
        assert(base(p) == dark());
        lemma_dimmed(field(p), field(p), step_cost(attenuation, opacity(n)), 0);
        lemma_within_order(offered(opacity, attenuation, field, p, n), field(n), field(n));
    }
}

/// The flood of one part lies below the flood of the whole.
proof fn lemma_part_below_whole(
    opacity: spec_fn(Coordinates) -> u8,
    attenuation: u8,
    part_base: spec_fn(Coordinates) -> [u8; 3],
    part_sources: Set<Coordinates>,
    part: spec_fn(Coordinates) -> [u8; 3],
    whole_base: spec_fn(Coordinates) -> [u8; 3],
    whole_sources: Set<Coordinates>,
    whole: spec_fn(Coordinates) -> [u8; 3],
)
    requires
        is_flood(opacity, attenuation, part_base, part_sources, part),
        is_flood(opacity, attenuation, whole_base, whole_sources, whole),
        part_sources.subset_of(whole_sources),
        forall|x: Coordinates| !part_sources.contains(x) ==> #[trigger] part_base(x) == dark(),
        forall|x: Coordinates| !whole_sources.contains(x) ==> #[trigger] whole_base(x) == dark(),
        field_within(part_base, whole_base),
    ensures
        field_within(part, whole),
{
    assert forall|x: Coordinates| #[trigger] within(part_base(x), whole(x)) by {
        assert(within(whole_base(x), whole(x)));
        assert(within(part_base(x), whole_base(x)));
        lemma_within_order(part_base(x), whole_base(x), whole(x));
    }
    assert forall|p: Coordinates| #[trigger] emits(part_base, part_sources, whole, p) implies relaxed(
        opacity,
        attenuation,
        whole,
        p,
    ) by {
        if !whole_sources.contains(p) {
            assert(part_base(p) == dark());
            assert(whole_base(p) == dark());
        }
        assert(emits(whole_base, whole_sources, whole, p));
    }
    assert(settled(opacity, attenuation, part_base, part_sources, whole));
}

/// The number of steps between two positions.
pub open spec fn steps_between(a: Coordinates, b: Coordinates) -> int {
    (if a.x >= b.x { a.x - b.x } else { b.x - a.x }) + (if a.y >= b.y { a.y - b.y } else { b.y - a.y })
        + (if a.z >= b.z { a.z - b.z } else { b.z - a.z })
}

/// The medium is fully transparent inside the box and fully opaque outside
/// it.
pub open spec fn open_box(opacity: spec_fn(Coordinates) -> u8, min: Coordinates, max: Coordinates) -> bool {
    forall|c: Coordinates| #[trigger] opacity(c) == if in_box(c, min, max) { 0u8 } else { 255u8 }
}

/// The field holds `color` at `source` and is dark everywhere else.
pub open spec fn lone_light(
    field: spec_fn(Coordinates) -> [u8; 3],
    source: Coordinates,
    color: [u8; 3],
) -> bool {
    forall|c: Coordinates| #[trigger] field(c) == if c == source { color } else { dark() }
}

/// What a single light in an open box comes to: its colour less the
/// attenuation for each step of distance inside the box, nothing outside.
pub open spec fn open_box_light(
    attenuation: u8,
    source: Coordinates,
    color: [u8; 3],
    min: Coordinates,
    max: Coordinates,
    c: Coordinates,
) -> [u8; 3] {
    if in_box(c, min, max) {
        dimmed(color, attenuation * steps_between(source, c))
    } else {
        dark()
    }
}

proof fn lemma_open_box_reaches(
    opacity: spec_fn(Coordinates) -> u8,
    attenuation: u8,
    base: spec_fn(Coordinates) -> [u8; 3],
    source: Coordinates,
    color: [u8; 3],
    field: spec_fn(Coordinates) -> [u8; 3],
    min: Coordinates,
    max: Coordinates,
    c: Coordinates,
)
    requires
        open_box(opacity, min, max),
        in_box(source, min, max),
        in_box(c, min, max),
        lone_light(base, source, color),
        settled(opacity, attenuation, base, set![source], field),
    ensures
        within(dimmed(color, attenuation * steps_between(source, c)), field(c)),
    decreases steps_between(source, c),
{
    let far = steps_between(source, c);
    if c == source {
        assert(within(base(c), field(c)));
        assert(base(c) == color);
        assert(attenuation * far == 0) by (nonlinear_arith)
            requires
                far == 0,
        ;
        lemma_dimmed(color, color, 0, 0);
    } else {
        let p = if c.x > source.x {
            Coordinates { x: (c.x - 1) as i32, y: c.y, z: c.z }
        } else if c.x < source.x {
            Coordinates { x: (c.x + 1) as i32, y: c.y, z: c.z }
        } else if c.y > source.y {
            Coordinates { x: c.x, y: (c.y - 1) as i32, z: c.z }
        } else if c.y < source.y {
            Coordinates { x: c.x, y: (c.y + 1) as i32, z: c.z }
        } else if c.z > source.z {
            Coordinates { x: c.x, y: c.y, z: (c.z - 1) as i32 }
        } else {
            Coordinates { x: c.x, y: c.y, z: (c.z + 1) as i32 }
        };
        assert(in_box(p, min, max));
        assert(adjacent(p, c));
        assert(steps_between(source, p) == far - 1);
        lemma_open_box_reaches(opacity, attenuation, base, source, color, field, min, max, p);
        let near_cost = attenuation * (far - 1);
        assert(attenuation * far == near_cost + attenuation && near_cost >= 0) by (nonlinear_arith)
            requires
                near_cost == attenuation * (far - 1),
                far >= 1,
                attenuation >= 0,
        ;
        assert(opacity(c) == 0);
        assert(step_cost(attenuation, opacity(c)) == attenuation);
        lemma_dimmed(color, color, near_cost, attenuation as int);
        if emits(base, set![source], field, p) {
            assert(relaxed(opacity, attenuation, field, p));
            assert(adjacent(p, c) && passable(opacity, c));
            lemma_dimmed(dimmed(color, near_cost), field(p), attenuation as int, 0);
            lemma_within_order(
                dimmed(color, attenuation * far),
                offered(opacity, attenuation, field, p, c),
                field(c),
            );
        } else {
            assert(field(p) == base(p));
            assert(base(p) == dark());
            lemma_within_order(dimmed(color, near_cost), dark(), dark());
            lemma_dimmed(dark(), dark(), attenuation as int, 0);
            lemma_within_order(dimmed(color, attenuation * far), dark(), field(c));
        }
    }
}

/// In a box that is open inside and closed outside, the flood of a single
/// light placed in the box is the colour of the light less the attenuation
/// for every step of distance.
pub proof fn lemma_open_box_flood(
    opacity: spec_fn(Coordinates) -> u8,
    attenuation: u8,
    base: spec_fn(Coordinates) -> [u8; 3],
    source: Coordinates,
    color: [u8; 3],
    field: spec_fn(Coordinates) -> [u8; 3],
    min: Coordinates,
    max: Coordinates,
    c: Coordinates,
)
    requires
        open_box(opacity, min, max),
        in_box(source, min, max),
        lone_light(base, source, color),
        is_flood(opacity, attenuation, base, set![source], field),
    ensures
        field(c) == open_box_light(attenuation, source, color, min, max, c),
{
    let sources = set![source];
    let ideal = |x: Coordinates| open_box_light(attenuation, source, color, min, max, x);
    assert forall|x: Coordinates| #[trigger] within(base(x), ideal(x)) by {
        assert(base(x) == if x == source { color } else { dark() });
        if x == source {
            assert(attenuation * steps_between(source, x) == 0) by (nonlinear_arith)
                requires
                    steps_between(source, x) == 0,
            ;
            lemma_dimmed(color, color, 0, 0);
            lemma_within_order(color, color, color);
        }
    }
    assert forall|p: Coordinates| #[trigger] emits(base, sources, ideal, p) implies relaxed(
        opacity,
        attenuation,
        ideal,
        p,
    ) by {
        assert forall|n: Coordinates| #[trigger]
            adjacent(p, n) && passable(opacity, n) implies within(
            offered(opacity, attenuation, ideal, p, n),
            ideal(n),
        ) by {
            assert(opacity(n) == if in_box(n, min, max) { 0u8 } else { 255u8 });
            assert(in_box(n, min, max));
            assert(step_cost(attenuation, opacity(n)) == attenuation);
            if in_box(p, min, max) {
                let from = attenuation * steps_between(source, p);
                let to = attenuation * steps_between(source, n);
                assert(0 <= from && 0 <= to && to <= from + attenuation) by (nonlinear_arith)
                    requires
                        from == attenuation * steps_between(source, p),
                        to == attenuation * steps_between(source, n),
                        0 <= steps_between(source, p),
                        0 <= steps_between(source, n) <= steps_between(source, p) + 1,
                        attenuation >= 0,
                ;
                lemma_dimmed(color, color, from, attenuation as int);
                lemma_dimmed(color, color, to, from + attenuation);
            } else {
                lemma_dimmed(dark(), dark(), attenuation as int, 0);
                lemma_within_order(
                    offered(opacity, attenuation, ideal, p, n),
                    ideal(n),
                    ideal(n),
                );
            }
        }
    }
    assert(settled(opacity, attenuation, base, sources, ideal));
    assert(field_within(field, ideal));
    assert(within(field(c), ideal(c)));
    if in_box(c, min, max) {
        lemma_open_box_reaches(opacity, attenuation, base, source, color, field, min, max, c);
        lemma_within_order(field(c), ideal(c), field(c));
    } else {
        lemma_within_order(field(c), dark(), field(c));
    }
}

/// From a single light in an open box, positions at the same distance hold
/// the same light, and a position farther away holds no more than a nearer
/// one: the six face neighbours of the light agree with each other, and so
/// do its twelve edge neighbours, which are no brighter.
pub proof fn lemma_light_depends_on_distance(
    opacity: spec_fn(Coordinates) -> u8,
    attenuation: u8,
    base: spec_fn(Coordinates) -> [u8; 3],
    source: Coordinates,
    color: [u8; 3],
    field: spec_fn(Coordinates) -> [u8; 3],
    min: Coordinates,
    max: Coordinates,
    near: Coordinates,
    far: Coordinates,
)
    requires
        open_box(opacity, min, max),
        in_box(source, min, max),
        in_box(near, min, max),
        in_box(far, min, max),
        lone_light(base, source, color),
        is_flood(opacity, attenuation, base, set![source], field),
        steps_between(source, near) <= steps_between(source, far),
    ensures
        within(field(far), field(near)),
        steps_between(source, near) == steps_between(source, far) ==> field(far) == field(near),
{
    lemma_open_box_flood(opacity, attenuation, base, source, color, field, min, max, near);
    lemma_open_box_flood(opacity, attenuation, base, source, color, field, min, max, far);
    let near_cost = attenuation * steps_between(source, near);
    let far_cost = attenuation * steps_between(source, far);
    assert(0 <= near_cost <= far_cost) by (nonlinear_arith)
        requires
            near_cost == attenuation * steps_between(source, near),
            far_cost == attenuation * steps_between(source, far),
            0 <= steps_between(source, near) <= steps_between(source, far),
            attenuation >= 0,
    ;
    lemma_dimmed(color, color, near_cost, far_cost);
}

/// With no attenuation, a single light fills an open box: every voxel of the
/// box ends with exactly the colour of the light.
pub proof fn lemma_unattenuated_light_fills_box(
    opacity: spec_fn(Coordinates) -> u8,
    base: spec_fn(Coordinates) -> [u8; 3],
    source: Coordinates,
    color: [u8; 3],
    field: spec_fn(Coordinates) -> [u8; 3],
    min: Coordinates,
    max: Coordinates,
    c: Coordinates,
)
    requires
        open_box(opacity, min, max),
        in_box(source, min, max),
        in_box(c, min, max),
        lone_light(base, source, color),
        is_flood(opacity, 0, base, set![source], field),
    ensures
        field(c) == color,
{
    lemma_open_box_flood(opacity, 0, base, source, color, field, min, max, c);
    assert(0 * steps_between(source, c) == 0);
    lemma_dimmed(color, color, 0, 0);
}

/// In a dark world, seeding one stored position leaves a single light.
pub proof fn lemma_one_seed_in_the_dark<W: LightingWorld>(
    world: W,
    source: Coordinates,
    color: [u8; 3],
)
    requires
        forall|c: Coordinates| #[trigger] world.light_at(c) == dark(),
        world.contains(source),
    ensures
        lone_light(seeded(world, seq![(source, color)]), source, color),
        seed_positions(seq![(source, color)]) == set![source],
{
    let seeds = seq![(source, color)];
    assert(seeds.drop_last() == Seq::<(Coordinates, [u8; 3])>::empty());
    assert forall|c: Coordinates| #[trigger]
        seeded(world, seeds)(c) == if c == source { color } else { dark() } by {
        assert(world.light_at(c) == dark());
        assert(seeded_light(seeds.drop_last(), c, dark()) == dark());
        lemma_merged_is_join(dark(), color, color);
    }
    assert forall|c: Coordinates| seed_positions(seeds).contains(c) <==> set![source].contains(
        c,
    ) by {
        if c == source {
            assert(seeds[0].0 == c);
        }
    }
    assert(seed_positions(seeds) =~= set![source]);
}

/// A single light placed by `propagate` in a dark world that is an open box
/// leaves, at every voxel of the box, its colour less the attenuation for
/// every step of distance, and nothing outside the box.
pub proof fn lemma_propagate_in_open_box<W: LightingWorld>(
    before: W,
    after: W,
    source: Coordinates,
    color: [u8; 3],
    attenuation: u8,
    min: Coordinates,
    max: Coordinates,
    c: Coordinates,
)
    requires
        before.wf(),
        forall|x: Coordinates| #[trigger] before.light_at(x) == dark(),
        open_box(opacity_field(before), min, max),
        in_box(source, min, max),
        propagates(before, seq![(source, color)], attenuation, after),
    ensures
        after.light_at(c) == open_box_light(attenuation, source, color, min, max, c),
{
    if !before.contains(source) {
        before.lemma_outside_is_opaque(source);
        assert(opacity_field(before)(source) == 0u8);
    }
    lemma_one_seed_in_the_dark(before, source, color);
    lemma_open_box_flood(
        opacity_field(before),
        attenuation,
        seeded(before, seq![(source, color)]),
        source,
        color,
        light_field(after),
        min,
        max,
        c,
    );
}

/// Distance symmetry: after `propagate` has placed a single light in a dark
/// open box, voxels of the box at the same distance from the light hold the
/// same light, and a voxel farther away holds no more than a nearer one. So
/// the six face neighbours of the light agree, and the twelve edge
/// neighbours agree and are no brighter.
pub proof fn lemma_propagate_is_symmetric<W: LightingWorld>(
    before: W,
    after: W,
    source: Coordinates,
    color: [u8; 3],
    attenuation: u8,
    min: Coordinates,
    max: Coordinates,
    near: Coordinates,
    far: Coordinates,
)
    requires
        before.wf(),
        forall|x: Coordinates| #[trigger] before.light_at(x) == dark(),
        open_box(opacity_field(before), min, max),
        in_box(source, min, max),
        in_box(near, min, max),
        in_box(far, min, max),
        propagates(before, seq![(source, color)], attenuation, after),
        steps_between(source, near) <= steps_between(source, far),
    ensures
        within(after.light_at(far), after.light_at(near)),
        steps_between(source, near) == steps_between(source, far) ==> after.light_at(far)
            == after.light_at(near),
{
    if !before.contains(source) {
        before.lemma_outside_is_opaque(source);
        assert(opacity_field(before)(source) == 0u8);
    }
    lemma_one_seed_in_the_dark(before, source, color);
    lemma_light_depends_on_distance(
        opacity_field(before),
        attenuation,
        seeded(before, seq![(source, color)]),
        source,
        color,
        light_field(after),
        min,
        max,
        near,
        far,
    );
}

/// Saturation without attenuation: after `propagate` with attenuation 0 has
/// placed a single light in a dark open box, every voxel of the box holds
/// exactly the colour of the light.
pub proof fn lemma_propagate_unattenuated_fills_box<W: LightingWorld>(
    before: W,
    after: W,
    source: Coordinates,
    color: [u8; 3],
    min: Coordinates,
    max: Coordinates,
    c: Coordinates,
)
    requires
        before.wf(),
        forall|x: Coordinates| #[trigger] before.light_at(x) == dark(),
        open_box(opacity_field(before), min, max),
        in_box(source, min, max),
        in_box(c, min, max),
        propagates(before, seq![(source, color)], 0, after),
    ensures
        after.light_at(c) == color,
{
    if !before.contains(source) {
        before.lemma_outside_is_opaque(source);
        assert(opacity_field(before)(source) == 0u8);
    }
    lemma_one_seed_in_the_dark(before, source, color);
    lemma_unattenuated_light_fills_box(
        opacity_field(before),
        seeded(before, seq![(source, color)]),
        source,
        color,
        light_field(after),
        min,
        max,
        c,
    );
}

/// A hard wall: `propagate` leaves a voxel of opacity 255 that is not a seed
/// with the light it had.
pub proof fn lemma_propagate_leaves_opaque_alone<W: LightingWorld>(
    before: W,
    seeds: Seq<(Coordinates, [u8; 3])>,
    attenuation: u8,
    after: W,
    c: Coordinates,
)
    requires
        propagates(before, seeds, attenuation, after),
        before.opacity_at(c) == 255,
        !seed_positions(seeds).contains(c),
    ensures
        after.light_at(c) == before.light_at(c),
{
    lemma_opaque_takes_no_light(
        opacity_field(before),
        attenuation,
        seeded(before, seeds),
        seed_positions(seeds),
        light_field(after),
        c,
    );
    lemma_unseeded_is_unchanged(seeds, c, before.light_at(c));
}

/// Light does not get past walls: where a region holds every seed and cannot
/// be left by a step into a voxel of opacity below 255, `propagate` leaves
/// every voxel outside the region with the light it had.
pub proof fn lemma_propagate_stays_inside<W: LightingWorld>(
    before: W,
    seeds: Seq<(Coordinates, [u8; 3])>,
    attenuation: u8,
    after: W,
    region: Set<Coordinates>,
    c: Coordinates,
)
    requires
        propagates(before, seeds, attenuation, after),
        seed_positions(seeds).subset_of(region),
        forall|p: Coordinates, n: Coordinates|
            region.contains(p) && #[trigger] adjacent(p, n) && before.opacity_at(n) != 255
                ==> region.contains(n),
        !region.contains(c),
    ensures
        after.light_at(c) == before.light_at(c),
{
    assert forall|p: Coordinates, n: Coordinates|
        region.contains(p) && #[trigger] adjacent(p, n) && passable(
            opacity_field(before),
            n,
        ) implies region.contains(n) by {
        assert(before.opacity_at(n) != 255);
    }
    lemma_light_stays_inside(
        opacity_field(before),
        attenuation,
        seeded(before, seeds),
        seed_positions(seeds),
        light_field(after),
        region,
        c,
    );
    lemma_unseeded_is_unchanged(seeds, c, before.light_at(c));
}

/// Several sources merge by maximum: what `propagate` makes of a dark world
/// with two lists of seeds together is, channel by channel, the maximum of
/// what it makes of the world with each list alone.
pub proof fn lemma_propagate_merges_by_maximum<W: LightingWorld>(
    before: W,
    first: Seq<(Coordinates, [u8; 3])>,
    second: Seq<(Coordinates, [u8; 3])>,
    attenuation: u8,
    after_first: W,
    after_second: W,
    after_both: W,
    c: Coordinates,
)
    requires
        forall|x: Coordinates| #[trigger] before.light_at(x) == dark(),
        propagates(before, first, attenuation, after_first),
        propagates(before, second, attenuation, after_second),
        propagates(before, first + second, attenuation, after_both),
    ensures
        after_both.light_at(c) == merged(after_first.light_at(c), after_second.light_at(c)),
{
    let both = first + second;
    assert(seed_positions(both) =~= seed_positions(first).union(seed_positions(second))) by {
        assert forall|x: Coordinates| seed_positions(both).contains(x) <==> (seed_positions(
            first,
        ).contains(x) || seed_positions(second).contains(x)) by {
            if seed_positions(both).contains(x) {
                let i = choose|i: int| 0 <= i < both.len() && (#[trigger] both[i]).0 == x;
                if i < first.len() {
                    assert(first[i].0 == x);
                } else {
                    assert(second[i - first.len()].0 == x);
                }
            }
            if seed_positions(first).contains(x) {
                let i = choose|i: int| 0 <= i < first.len() && (#[trigger] first[i]).0 == x;
                assert(both[i].0 == x);
            }
            if seed_positions(second).contains(x) {
                let i = choose|i: int| 0 <= i < second.len() && (#[trigger] second[i]).0 == x;
                assert(both[i + first.len()].0 == x);
            }
        }
    }
    assert forall|x: Coordinates| !seed_positions(first).contains(x) implies #[trigger] seeded(
        before,
        first,
    )(x) == dark() by {
        assert(before.light_at(x) == dark());
        lemma_unseeded_is_unchanged(first, x, dark());
    }
    assert forall|x: Coordinates| !seed_positions(second).contains(x) implies #[trigger] seeded(
        before,
        second,
    )(x) == dark() by {
        assert(before.light_at(x) == dark());
        lemma_unseeded_is_unchanged(second, x, dark());
    }
    assert forall|x: Coordinates| #[trigger]
        seeded(before, both)(x) == merged(seeded(before, first)(x), seeded(before, second)(x)) by {
        assert(before.light_at(x) == dark());
        lemma_seeding_in_turn(first, second, x, dark());
        lemma_seeding_is_one_merge(second, x, seeded_light(first, x, dark()));
        lemma_merged_is_join(dark(), dark(), dark());
    }
    lemma_floods_merge_by_maximum(
        opacity_field(before),
        attenuation,
        seeded(before, first),
        seed_positions(first),
        light_field(after_first),
        seeded(before, second),
        seed_positions(second),
        light_field(after_second),
        seeded(before, both),
        light_field(after_both),
        c,
    );
}

} // verus!
