//! Removing the only light of a dark world leaves the world dark.
//!
//! The light of a single source takes, at every position, one of the values
//! that the colour of the source passes through as it is dimmed step by step.
//! These values form a chain. Because the flood is the least settled field,
//! every lit voxel holds exactly what one lit neighbour hands it, and following
//! those neighbours leads back to the source: the siphon pass of the removal
//! finds every lit voxel.

use vstd::prelude::*;
use crate::physics::coordinates::{adjacent, Coordinates};
use crate::lighting::color::{dark, dimmed, is_dark, step_cost, within};
use crate::lighting::color::{lemma_dimmed, lemma_within_order};
use crate::lighting::field::{
    emits, field_within, is_flood, offered, passable, relaxed, settled, lemma_flood_congruent,
};
use crate::lighting::laws::{
    lemma_darkness_stays_dark, lemma_no_sources_no_change, lemma_one_seed_in_the_dark,
    lemma_opaque_takes_no_light, lone_light,
};
use crate::lighting::lighting_world::{light_field, opacity_field, LightingWorld};
use crate::lighting::propagation::{lemma_unseeded_is_unchanged, propagates, seed_positions, seeded};
use crate::lighting::removal::{
    derived_from, drained, drains, refill_sources, removal_seeds, siphoned, unpropagates,
};

verus! {

/// The first level from `from` on at which the colour, dimmed by the level,
/// lies within `light`; 255 at the latest.
pub open spec fn level_from(color: [u8; 3], light: [u8; 3], from: int) -> int
    decreases 255 - from,
{
    if from >= 255 || within(dimmed(color, from), light) {
        from
    } else {
        level_from(color, light, from + 1)
    }
}

/// The brightest value of the chain of `color` that lies within `light`.
pub open spec fn chain_floor(color: [u8; 3], light: [u8; 3]) -> [u8; 3] {
    dimmed(color, level_from(color, light, 0))
}

proof fn lemma_level_from(color: [u8; 3], light: [u8; 3], from: int, other: int)
    requires
        0 <= from <= 255,
    ensures
        from <= level_from(color, light, from) <= 255,
        within(dimmed(color, level_from(color, light, from)), light),
        from <= other && within(dimmed(color, other), light) ==> level_from(color, light, from)
            <= other,
    decreases 255 - from,
{
    if from >= 255 {
        lemma_dimmed(color, color, from, 0);
        lemma_within_order(dark(), light, light);
    } else if !within(dimmed(color, from), light) {
        lemma_level_from(color, light, from + 1, other);
    }
}

/// The floor lies within the light, and every value of the chain that lies
/// within the light lies within the floor.
proof fn lemma_chain_floor(color: [u8; 3], light: [u8; 3], k: int)
    requires
        0 <= k,
    ensures
        within(chain_floor(color, light), light),
        within(dimmed(color, k), light) ==> within(dimmed(color, k), chain_floor(color, light)),
        within(color, light) ==> chain_floor(color, light) == color,
        0 <= level_from(color, light, 0) <= 255,
{
    lemma_level_from(color, light, 0, k);
    let level = level_from(color, light, 0);
    if within(dimmed(color, k), light) {
        lemma_dimmed(color, color, level, k);
    }
    if within(color, light) {
        lemma_dimmed(color, color, 0, 0);
        lemma_level_from(color, light, 0, 0);
    }
}

/// Lit values of a chain are told apart by their level, and a value of the
/// chain strictly below a lit one lies within the next value after that one.
proof fn lemma_chain_order(color: [u8; 3], j: int, k: int)
    requires
        0 <= j,
        0 <= k,
        !is_dark(dimmed(color, k)),
    ensures
        dimmed(color, j) == dimmed(color, k) ==> j == k,
        dimmed(color, k + 1) != dimmed(color, k),
        within(dimmed(color, k + 1), dimmed(color, k)),
        within(dimmed(color, j), dimmed(color, k)) && dimmed(color, j) != dimmed(color, k)
            ==> within(dimmed(color, j), dimmed(color, k + 1)),
{
    lemma_dimmed(color, color, k, k + 1);
    if within(dimmed(color, j), dimmed(color, k)) && dimmed(color, j) != dimmed(color, k) {
        if j <= k {
            lemma_dimmed(color, color, j, k);
            lemma_within_order(dimmed(color, j), dimmed(color, k), dimmed(color, j));
        } else {
            lemma_dimmed(color, color, k + 1, j);
        }
    }
}

/// The flood of a single light holds a value of the chain of its colour at
/// every position.
proof fn lemma_single_light_stays_on_chain(
    opacity: spec_fn(Coordinates) -> u8,
    attenuation: u8,
    base: spec_fn(Coordinates) -> [u8; 3],
    source: Coordinates,
    color: [u8; 3],
    field: spec_fn(Coordinates) -> [u8; 3],
    c: Coordinates,
)
    requires
        lone_light(base, source, color),
        is_flood(opacity, attenuation, base, set![source], field),
    ensures
        field(c) == chain_floor(color, field(c)),
{
    let sources = set![source];
    let floored = |x: Coordinates| chain_floor(color, field(x));
    assert forall|x: Coordinates| #[trigger] within(base(x), floored(x)) by {
        assert(within(base(x), field(x)));
        assert(base(x) == if x == source { color } else { dark() });
        lemma_chain_floor(color, field(x), 0);
        lemma_within_order(color, color, color);
    }
    assert forall|p: Coordinates| #[trigger] emits(base, sources, floored, p) implies relaxed(
        opacity,
        attenuation,
        floored,
        p,
    ) by {
        lemma_chain_floor(color, field(p), 0);
        assert(base(p) == if p == source { color } else { dark() });
        if p != source && field(p) == base(p) {
            lemma_within_order(floored(p), dark(), floored(p));
        }
        assert(emits(base, sources, field, p));
        assert(relaxed(opacity, attenuation, field, p));
        assert forall|n: Coordinates| #[trigger]
            adjacent(p, n) && passable(opacity, n) implies within(
            offered(opacity, attenuation, floored, p, n),
            floored(n),
        ) by {
            let cost = step_cost(attenuation, opacity(n));
            let level = level_from(color, field(p), 0);
            lemma_dimmed(floored(p), field(p), cost, 0);
            lemma_within_order(
                offered(opacity, attenuation, floored, p, n),
                offered(opacity, attenuation, field, p, n),
                field(n),
            );
            lemma_dimmed(color, color, level, cost);
            lemma_chain_floor(color, field(n), level + cost);
        }
    }
    assert(settled(opacity, attenuation, base, sources, floored));
    assert(field_within(field, floored));
    assert(within(field(c), floored(c)));
    lemma_chain_floor(color, field(c), 0);
    lemma_within_order(field(c), floored(c), field(c));
}

/// The drained positions hold the seeds and every voxel derived from a
/// drained position.
pub proof fn lemma_drained_drains(
    opacity: spec_fn(Coordinates) -> u8,
    attenuation: u8,
    field: spec_fn(Coordinates) -> [u8; 3],
    seeds: Set<Coordinates>,
    p: Coordinates,
    n: Coordinates,
)
    ensures
        seeds.contains(p) ==> drained(opacity, attenuation, field, seeds, p),
        drained(opacity, attenuation, field, seeds, p) && derived_from(
            opacity,
            attenuation,
            field,
            p,
            n,
        ) ==> drained(opacity, attenuation, field, seeds, n),
{
    if drained(opacity, attenuation, field, seeds, p) && derived_from(
        opacity,
        attenuation,
        field,
        p,
        n,
    ) {
        assert forall|region: Set<Coordinates>| #[trigger]
            drains(opacity, attenuation, field, seeds, region) implies region.contains(n) by {
            assert(region.contains(p));
        }
    }
}

/// Every voxel lit at the given level of the chain by the flood of a single
/// light is drained when that light is removed.
proof fn lemma_lit_level_is_drained(
    opacity: spec_fn(Coordinates) -> u8,
    attenuation: u8,
    base: spec_fn(Coordinates) -> [u8; 3],
    source: Coordinates,
    color: [u8; 3],
    field: spec_fn(Coordinates) -> [u8; 3],
    level: int,
    c: Coordinates,
)
    requires
        lone_light(base, source, color),
        is_flood(opacity, attenuation, base, set![source], field),
        0 <= level,
        field(c) == dimmed(color, level),
        !is_dark(field(c)),
    ensures
        drained(opacity, attenuation, field, set![source], c),
    decreases level,
{
    let sources = set![source];
    let here = dimmed(color, level);
    let next = dimmed(color, level + 1);
    let stuck = |x: Coordinates|
        field(x) == here && !drained(opacity, attenuation, field, sources, x);
    let lowered = |x: Coordinates| if stuck(x) { next } else { field(x) };
    if !drained(opacity, attenuation, field, sources, c) {
        lemma_chain_order(color, level, level);
        lemma_drained_drains(opacity, attenuation, field, sources, source, source);
        assert forall|x: Coordinates| #[trigger] within(lowered(x), field(x)) by {
            lemma_within_order(field(x), field(x), field(x));
        }
        assert forall|x: Coordinates| #[trigger] within(base(x), lowered(x)) by {
            assert(within(base(x), field(x)));
            assert(base(x) == if x == source { color } else { dark() });
            if stuck(x) {
                lemma_within_order(dark(), next, next);
            }
        }
        assert forall|p: Coordinates| #[trigger] emits(base, sources, lowered, p) implies relaxed(
            opacity,
            attenuation,
            lowered,
            p,
        ) by {
            assert(base(p) == if p == source { color } else { dark() });
            assert(within(lowered(p), field(p)));
            if p != source && field(p) == base(p) {
                lemma_within_order(lowered(p), dark(), lowered(p));
            }
            assert(emits(base, sources, field, p));
            assert(relaxed(opacity, attenuation, field, p));
            assert forall|n: Coordinates| #[trigger]
                adjacent(p, n) && passable(opacity, n) implies within(
                offered(opacity, attenuation, lowered, p, n),
                lowered(n),
            ) by {
                let cost = step_cost(attenuation, opacity(n));
                let given = offered(opacity, attenuation, field, p, n);
                lemma_dimmed(lowered(p), field(p), cost, 0);
                assert(within(given, field(n)));
                if !stuck(n) {
                    lemma_within_order(offered(opacity, attenuation, lowered, p, n), given, field(n));
                } else if stuck(p) {
                    lemma_dimmed(next, next, cost, 0);
                } else {
                    lemma_single_light_stays_on_chain(
                        opacity,
                        attenuation,
                        base,
                        source,
                        color,
                        field,
                        p,
                    );
                    let from = level_from(color, field(p), 0);
                    lemma_chain_floor(color, field(p), 0);
                    lemma_dimmed(color, color, from, cost);
                    assert(given == dimmed(color, from + cost));
                    if drained(opacity, attenuation, field, sources, p) {
                        lemma_drained_drains(opacity, attenuation, field, sources, p, n);
                        assert(!derived_from(opacity, attenuation, field, p, n));
                        assert(field(n) != given);
                        lemma_chain_order(color, from + cost, level);
                    } else if is_dark(field(p)) {
                        lemma_dimmed(field(p), field(p), cost, 0);
                        lemma_within_order(given, next, next);
                    } else {
                        if from < level {
                            lemma_lit_level_is_drained(
                                opacity,
                                attenuation,
                                base,
                                source,
                                color,
                                field,
                                from,
                                p,
                            );
                        }
                        assert(from != level);
                        lemma_dimmed(color, color, level + 1, from);
                        lemma_dimmed(field(p), field(p), cost, 0);
                        lemma_within_order(given, field(p), next);
                    }
                }
            }
        }
        assert(settled(opacity, attenuation, base, sources, lowered));
        assert(field_within(field, lowered));
        assert(within(field(c), lowered(c)));
        assert(stuck(c));
        lemma_within_order(here, next, here);
    }
}

/// Every voxel lit by the flood of a single light is drained when that light
/// is removed.
pub proof fn lemma_single_light_is_drained(
    opacity: spec_fn(Coordinates) -> u8,
    attenuation: u8,
    base: spec_fn(Coordinates) -> [u8; 3],
    source: Coordinates,
    color: [u8; 3],
    field: spec_fn(Coordinates) -> [u8; 3],
    c: Coordinates,
)
    requires
        lone_light(base, source, color),
        is_flood(opacity, attenuation, base, set![source], field),
        !is_dark(field(c)),
    ensures
        drained(opacity, attenuation, field, set![source], c),
{
    lemma_single_light_stays_on_chain(opacity, attenuation, base, source, color, field, c);
    lemma_chain_floor(color, field(c), 0);
    lemma_lit_level_is_drained(
        opacity,
        attenuation,
        base,
        source,
        color,
        field,
        level_from(color, field(c), 0),
        c,
    );
}

/// Lighting a single source in a dark world and then removing it leaves the
/// world dark: `propagate` followed by `unpropagate` on the same seed returns
/// every voxel to no light.
pub proof fn lemma_remove_after_light_is_dark<W: LightingWorld>(
    before: W,
    lit: W,
    after: W,
    source: Coordinates,
    color: [u8; 3],
    attenuation: u8,
    c: Coordinates,
)
    requires
        forall|x: Coordinates| #[trigger] before.light_at(x) == dark(),
        propagates(before, seq![(source, color)], attenuation, lit),
        unpropagates(lit, removal_seeds(seq![source]), attenuation, after),
    ensures
        after.light_at(c) == dark(),
{
    let opacity = opacity_field(lit);
    let base = seeded(before, seq![(source, color)]);
    let field = light_field(lit);
    let seeds = removal_seeds(seq![source]);
    let drained_light = siphoned(lit, seeds, attenuation);
    let refill = refill_sources(lit, seeds, attenuation);
    let nothing = |x: Coordinates| dark();
    assert forall|x: Coordinates| #[trigger] drained_light(x) == nothing(x) by {
        lemma_light_is_drained_or_dark(before, lit, source, color, attenuation, x);
        if is_dark(lit.light_at(x)) {
            lemma_within_order(lit.light_at(x), lit.light_at(x), lit.light_at(x));
        }
    }
    assert(refill =~= Set::<Coordinates>::empty());
    lemma_flood_congruent(
        opacity,
        opacity,
        attenuation,
        drained_light,
        nothing,
        refill,
        light_field(after),
    );
    lemma_no_sources_no_change(opacity, attenuation, nothing, light_field(after), c);
}

/// After a single source was lit in a dark world, every lit voxel is stored
/// by the world and is drained when the source is removed.
proof fn lemma_light_is_drained_or_dark<W: LightingWorld>(
    before: W,
    lit: W,
    source: Coordinates,
    color: [u8; 3],
    attenuation: u8,
    x: Coordinates,
)
    requires
        forall|y: Coordinates| #[trigger] before.light_at(y) == dark(),
        propagates(before, seq![(source, color)], attenuation, lit),
    ensures
        is_dark(lit.light_at(x)) || (lit.contains(x) && drained(
            opacity_field(lit),
            attenuation,
            light_field(lit),
            removal_seeds(seq![source]),
            x,
        )),
{
    let opacity = opacity_field(lit);
    let base = seeded(before, seq![(source, color)]);
    let field = light_field(lit);
    let seeds = removal_seeds(seq![source]);
    lemma_flood_congruent(
        opacity_field(before),
        opacity,
        attenuation,
        base,
        base,
        seed_positions(seq![(source, color)]),
        field,
    );
    if before.contains(source) {
        lemma_one_seed_in_the_dark(before, source, color);
        assert(seeds =~= set![source]) by {
            assert forall|y: Coordinates| seeds.contains(y) <==> set![source].contains(y) by {
                if y == source {
                    assert(seq![source][0] == y);
                }
            }
        }
        if !is_dark(field(x)) {
            lemma_single_light_is_drained(opacity, attenuation, base, source, color, field, x);
            if !lit.contains(x) {
                lit.lemma_outside_is_opaque(x);
                lemma_opaque_takes_no_light(opacity, attenuation, base, set![source], field, x);
                assert(base(x) == if x == source { color } else { dark() });
                assert(lit.contains(source) == before.contains(source));
            }
        }
    } else {
        assert forall|y: Coordinates| #[trigger] base(y) == dark() by {
            assert(before.light_at(y) == dark());
            if before.contains(y) {
                lemma_unseeded_is_unchanged(seq![(source, color)], y, dark());
            }
        }
        lemma_darkness_stays_dark(
            opacity,
            attenuation,
            base,
            seed_positions(seq![(source, color)]),
            field,
            x,
        );
    }
}

} // verus!
