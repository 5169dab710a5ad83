//! The steady state of flooding, told by paths.
//!
//! Where all the light there is sits at the sources, the flood gives every
//! voxel, in every channel, the most that any path brings it: the light at
//! the start of the path less the cost of every step along it. The path that
//! brings the most from a source is a cheapest one, so the flood is, channel
//! by channel, the maximum over the sources of the source's light less the
//! cost of a cheapest path.

use vstd::prelude::*;
use crate::physics::coordinates::{adjacent, Coordinates};
use crate::lighting::color::{dark, dimmed, dimmed_channel, step_cost, within};
use crate::lighting::color::{lemma_dimmed, lemma_same_channels, lemma_within_order};
use crate::lighting::field::{field_within, is_flood, offered, passable, relaxed, settled};
use crate::lighting::laws::lemma_offer_is_met;
use crate::lighting::lighting_world::{light_field, opacity_field, LightingWorld};
use crate::lighting::propagation::{lemma_unseeded_is_unchanged, propagates, seed_positions, seeded};

verus! {

/// A walk of at least one position in which every step goes to a
/// face-adjacent voxel that light may enter.
pub open spec fn is_path(opacity: spec_fn(Coordinates) -> u8, path: Seq<Coordinates>) -> bool {
    &&& path.len() >= 1
    &&& forall|i: int|
        0 < i < path.len() ==> adjacent(path[i - 1], #[trigger] path[i]) && passable(
            opacity,
            path[i],
        )
}

/// What light pays along a path: for every step, the attenuation plus the
/// opacity of the voxel entered.
pub open spec fn path_cost(
    opacity: spec_fn(Coordinates) -> u8,
    attenuation: u8,
    path: Seq<Coordinates>,
) -> int
    decreases path.len(),
{
    if path.len() <= 1 {
        0
    } else {
        path_cost(opacity, attenuation, path.drop_last()) + step_cost(
            attenuation,
            opacity(path.last()),
        )
    }
}

/// What a path brings to its end: the light of the base at its start, less
/// the cost of the path.
pub open spec fn carried(
    opacity: spec_fn(Coordinates) -> u8,
    attenuation: u8,
    base: spec_fn(Coordinates) -> [u8; 3],
    path: Seq<Coordinates>,
) -> [u8; 3] {
    dimmed(base(path[0]), path_cost(opacity, attenuation, path))
}

/// Some path brings at least `level` to `c` in the given channel.
pub open spec fn reaches(
    opacity: spec_fn(Coordinates) -> u8,
    attenuation: u8,
    base: spec_fn(Coordinates) -> [u8; 3],
    c: Coordinates,
    channel: int,
    level: int,
) -> bool {
    exists|path: Seq<Coordinates>|
        is_path(opacity, path) && path.last() == c && #[trigger] carried(
            opacity,
            attenuation,
            base,
            path,
        )[channel] >= level
}

/// The highest level up to `from` that some path brings to `c` in the given
/// channel.
pub open spec fn brightest_from(
    opacity: spec_fn(Coordinates) -> u8,
    attenuation: u8,
    base: spec_fn(Coordinates) -> [u8; 3],
    c: Coordinates,
    channel: int,
    from: int,
) -> int
    decreases from,
{
    if from <= 0 {
        0
    } else if reaches(opacity, attenuation, base, c, channel, from) {
        from
    } else {
        brightest_from(opacity, attenuation, base, c, channel, from - 1)
    }
}

/// The most that any path brings to `c`, channel by channel.
pub open spec fn brightest(
    opacity: spec_fn(Coordinates) -> u8,
    attenuation: u8,
    base: spec_fn(Coordinates) -> [u8; 3],
    c: Coordinates,
) -> [u8; 3] {
    [
        brightest_from(opacity, attenuation, base, c, 0, 255) as u8,
        brightest_from(opacity, attenuation, base, c, 1, 255) as u8,
        brightest_from(opacity, attenuation, base, c, 2, 255) as u8,
    ]
}

/// The cost of a path is not negative.
pub proof fn lemma_path_cost_is_not_negative(
    opacity: spec_fn(Coordinates) -> u8,
    attenuation: u8,
    path: Seq<Coordinates>,
)
    ensures
        0 <= path_cost(opacity, attenuation, path),
    decreases path.len(),
{
    if path.len() > 1 {
        lemma_path_cost_is_not_negative(opacity, attenuation, path.drop_last());
    }
}

/// A path can be extended by a step into a passable neighbour of its end, and
/// then brings what it brought before, dimmed by the cost of that step.
pub proof fn lemma_path_extends(
    opacity: spec_fn(Coordinates) -> u8,
    attenuation: u8,
    base: spec_fn(Coordinates) -> [u8; 3],
    path: Seq<Coordinates>,
    n: Coordinates,
)
    requires
        is_path(opacity, path),
        adjacent(path.last(), n),
        passable(opacity, n),
    ensures
        is_path(opacity, path.push(n)),
        path.push(n).last() == n,
        carried(opacity, attenuation, base, path.push(n)) == dimmed(
            carried(opacity, attenuation, base, path),
            step_cost(attenuation, opacity(n)),
        ),
{
    let longer = path.push(n);
    assert(longer.drop_last() == path);
    assert forall|i: int| 0 < i < longer.len() implies adjacent(longer[i - 1], #[trigger] longer[i])
        && passable(opacity, longer[i]) by {
        if i < path.len() {
            assert(longer[i] == path[i]);
            assert(longer[i - 1] == path[i - 1]);
        }
    }
    lemma_path_cost_is_not_negative(opacity, attenuation, path);
    lemma_dimmed(
        base(path[0]),
        base(path[0]),
        path_cost(opacity, attenuation, path),
        step_cost(attenuation, opacity(n)),
    );
    assert(longer[0] == path[0]);
}

/// The highest level is one that a path brings, and no path brings more.
proof fn lemma_brightest_from(
    opacity: spec_fn(Coordinates) -> u8,
    attenuation: u8,
    base: spec_fn(Coordinates) -> [u8; 3],
    c: Coordinates,
    channel: int,
    from: int,
    path: Seq<Coordinates>,
)
    requires
        0 <= channel < 3,
        0 <= from <= 255,
    ensures
        0 <= brightest_from(opacity, attenuation, base, c, channel, from) <= from,
        reaches(
            opacity,
            attenuation,
            base,
            c,
            channel,
            brightest_from(opacity, attenuation, base, c, channel, from),
        ),
        is_path(opacity, path) && path.last() == c && carried(
            opacity,
            attenuation,
            base,
            path,
        )[channel] <= from ==> carried(opacity, attenuation, base, path)[channel] <= brightest_from(
            opacity,
            attenuation,
            base,
            c,
            channel,
            from,
        ),
    decreases from,
{
    if from <= 0 {
        let alone = seq![c];
        assert(is_path(opacity, alone));
        assert(alone.last() == c);
        assert(carried(opacity, attenuation, base, alone)[channel] >= 0);
    } else if !reaches(opacity, attenuation, base, c, channel, from) {
        lemma_brightest_from(opacity, attenuation, base, c, channel, from - 1, path);
    }
}

/// In a settled field whose base is dark away from the sources, every voxel
/// holds at least what any path brings it.
pub proof fn lemma_settled_covers_every_path(
    opacity: spec_fn(Coordinates) -> u8,
    attenuation: u8,
    base: spec_fn(Coordinates) -> [u8; 3],
    sources: Set<Coordinates>,
    field: spec_fn(Coordinates) -> [u8; 3],
    path: Seq<Coordinates>,
)
    requires
        settled(opacity, attenuation, base, sources, field),
        forall|x: Coordinates| !sources.contains(x) ==> #[trigger] base(x) == dark(),
        is_path(opacity, path),
    ensures
        within(carried(opacity, attenuation, base, path), field(path.last())),
    decreases path.len(),
{
    if path.len() == 1 {
        assert(within(base(path[0]), field(path[0])));
        lemma_dimmed(base(path[0]), base(path[0]), 0, 0);
    } else {
        let before = path.drop_last();
        let p = before.last();
        let n = path.last();
        assert(before[0] == path[0]);
        assert(is_path(opacity, before)) by {
            assert forall|i: int| 0 < i < before.len() implies adjacent(
                before[i - 1],
                #[trigger] before[i],
            ) && passable(opacity, before[i]) by {
                assert(before[i] == path[i]);
                assert(before[i - 1] == path[i - 1]);
            }
        }
        lemma_settled_covers_every_path(opacity, attenuation, base, sources, field, before);
        assert(p == path[path.len() - 2]);
        assert(adjacent(path[path.len() - 2], path[path.len() - 1]) && passable(
            opacity,
            path[path.len() - 1],
        ));
        assert(path.push(n).drop_last() == path);
        assert(before.push(n) == path);
        lemma_path_extends(opacity, attenuation, base, before, n);
        let cost = step_cost(attenuation, opacity(n));
        lemma_dimmed(carried(opacity, attenuation, base, before), field(p), cost, 0);
        lemma_offer_is_met(opacity, attenuation, base, sources, field, p, n);
        lemma_within_order(
            carried(opacity, attenuation, base, path),
            offered(opacity, attenuation, field, p, n),
            field(n),
        );
    }
}

/// The most that paths bring to a passable voxel is at least the most they
/// bring to a neighbour, dimmed by the cost of the step.
proof fn lemma_brightest_passes_on(
    opacity: spec_fn(Coordinates) -> u8,
    attenuation: u8,
    base: spec_fn(Coordinates) -> [u8; 3],
    p: Coordinates,
    n: Coordinates,
    channel: int,
)
    requires
        adjacent(p, n),
        passable(opacity, n),
        0 <= channel < 3,
    ensures
        dimmed_channel(
            brightest(opacity, attenuation, base, p)[channel],
            step_cost(attenuation, opacity(n)),
        ) <= brightest(opacity, attenuation, base, n)[channel],
{
    lemma_brightest_from(opacity, attenuation, base, p, channel, 255, seq![p]);
    let level = brightest_from(opacity, attenuation, base, p, channel, 255);
    let path = choose|path: Seq<Coordinates>|
        is_path(opacity, path) && path.last() == p && #[trigger] carried(
            opacity,
            attenuation,
            base,
            path,
        )[channel] >= level;
    lemma_path_extends(opacity, attenuation, base, path, n);
    lemma_brightest_from(opacity, attenuation, base, n, channel, 255, path.push(n));
    lemma_brightest_from(opacity, attenuation, base, n, channel, 255, seq![n]);
}

/// The field of the brightest paths is settled, whatever the sources.
proof fn lemma_brightest_is_settled(
    opacity: spec_fn(Coordinates) -> u8,
    attenuation: u8,
    base: spec_fn(Coordinates) -> [u8; 3],
    sources: Set<Coordinates>,
)
    ensures
        settled(
            opacity,
            attenuation,
            base,
            sources,
            |c: Coordinates| brightest(opacity, attenuation, base, c),
        ),
{
    let most = |c: Coordinates| brightest(opacity, attenuation, base, c);
    assert forall|c: Coordinates| #[trigger] within(base(c), most(c)) by {
        let alone = seq![c];
        assert(is_path(opacity, alone));
        assert(alone.last() == c);
        lemma_dimmed(base(c), base(c), 0, 0);
        assert(carried(opacity, attenuation, base, alone) == base(c));
        lemma_brightest_from(opacity, attenuation, base, c, 0, 255, alone);
        lemma_brightest_from(opacity, attenuation, base, c, 1, 255, alone);
        lemma_brightest_from(opacity, attenuation, base, c, 2, 255, alone);
    }
    assert forall|p: Coordinates| relaxed(opacity, attenuation, most, p) by {
        assert forall|n: Coordinates| #[trigger]
            adjacent(p, n) && passable(opacity, n) implies within(
            offered(opacity, attenuation, most, p, n),
            most(n),
        ) by {
            lemma_brightest_passes_on(opacity, attenuation, base, p, n, 0);
            lemma_brightest_passes_on(opacity, attenuation, base, p, n, 1);
            lemma_brightest_passes_on(opacity, attenuation, base, p, n, 2);
        }
    }
}

/// A settled field whose base is dark away from the sources holds at least
/// the most that any path brings.
proof fn lemma_brightest_is_covered(
    opacity: spec_fn(Coordinates) -> u8,
    attenuation: u8,
    base: spec_fn(Coordinates) -> [u8; 3],
    sources: Set<Coordinates>,
    field: spec_fn(Coordinates) -> [u8; 3],
    c: Coordinates,
    channel: int,
)
    requires
        settled(opacity, attenuation, base, sources, field),
        forall|x: Coordinates| !sources.contains(x) ==> #[trigger] base(x) == dark(),
        0 <= channel < 3,
    ensures
        brightest(opacity, attenuation, base, c)[channel] <= field(c)[channel],
{
    lemma_brightest_from(opacity, attenuation, base, c, channel, 255, seq![c]);
    let level = brightest_from(opacity, attenuation, base, c, channel, 255);
    let path = choose|path: Seq<Coordinates>|
        is_path(opacity, path) && path.last() == c && #[trigger] carried(
            opacity,
            attenuation,
            base,
            path,
        )[channel] >= level;
    lemma_settled_covers_every_path(opacity, attenuation, base, sources, field, path);
}

/// The steady state: where the base is dark away from the sources, the flood
/// holds at every voxel, in every channel, exactly the most that any path
/// brings there. No path brings more, and some path brings as much.
pub proof fn lemma_flood_is_brightest_path(
    opacity: spec_fn(Coordinates) -> u8,
    attenuation: u8,
    base: spec_fn(Coordinates) -> [u8; 3],
    sources: Set<Coordinates>,
    field: spec_fn(Coordinates) -> [u8; 3],
    c: Coordinates,
    channel: int,
)
    requires
        is_flood(opacity, attenuation, base, sources, field),
        forall|x: Coordinates| !sources.contains(x) ==> #[trigger] base(x) == dark(),
        0 <= channel < 3,
    ensures
        field(c) == brightest(opacity, attenuation, base, c),
        forall|path: Seq<Coordinates>|
            is_path(opacity, path) && path.last() == c ==> #[trigger] carried(
                opacity,
                attenuation,
                base,
                path,
            )[channel] <= field(c)[channel],
        reaches(opacity, attenuation, base, c, channel, field(c)[channel] as int),
{
    let most = |x: Coordinates| brightest(opacity, attenuation, base, x);
    lemma_brightest_is_settled(opacity, attenuation, base, sources);
    assert(field_within(field, most));
    assert(within(field(c), most(c)));
    lemma_brightest_is_covered(opacity, attenuation, base, sources, field, c, 0);
    lemma_brightest_is_covered(opacity, attenuation, base, sources, field, c, 1);
    lemma_brightest_is_covered(opacity, attenuation, base, sources, field, c, 2);
    lemma_same_channels(field(c), most(c));
    assert forall|path: Seq<Coordinates>|
        is_path(opacity, path) && path.last() == c implies #[trigger] carried(
        opacity,
        attenuation,
        base,
        path,
    )[channel] <= field(c)[channel] by {
        lemma_settled_covers_every_path(opacity, attenuation, base, sources, field, path);
    }
    lemma_brightest_from(opacity, attenuation, base, c, channel, 255, seq![c]);
}

/// What `propagate` leaves in a world that was dark: at every voxel, in
/// every channel, the maximum over all paths of the seeded light at the start
/// of the path less the cost of the path.
pub proof fn lemma_propagate_reaches_steady_state<W: LightingWorld>(
    before: W,
    seeds: Seq<(Coordinates, [u8; 3])>,
    attenuation: u8,
    after: W,
    c: Coordinates,
)
    requires
        forall|x: Coordinates| #[trigger] before.light_at(x) == dark(),
        propagates(before, seeds, attenuation, after),
    ensures
        after.light_at(c) == brightest(
            opacity_field(before),
            attenuation,
            seeded(before, seeds),
            c,
        ),
{
    let base = seeded(before, seeds);
    assert forall|x: Coordinates| !seed_positions(seeds).contains(x) implies #[trigger] base(x)
        == dark() by {
        assert(before.light_at(x) == dark());
        lemma_unseeded_is_unchanged(seeds, x, dark());
    }
    lemma_flood_is_brightest_path(
        opacity_field(before),
        attenuation,
        base,
        seed_positions(seeds),
        light_field(after),
        c,
        0,
    );
}

} // verus!
