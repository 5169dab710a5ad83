//! The mathematical model of light in a voxel medium.
//!
//! A *field* gives every position a light value; a *medium* gives every
//! position an opacity. Light moves between face-adjacent positions and pays,
//! for each step, the fixed attenuation plus the opacity of the voxel it
//! enters; it never enters a voxel of opacity 255.
//!
//! Flooding starts from a base field and a set of source positions. A position
//! *emits* once it is a source or holds more light than the base gave it. A
//! field is *settled* when it covers the base and every emitting position has
//! offered its light to each passable neighbour. The *flood* is the least
//! settled field: it holds the light that the rules force and no more.

use vstd::prelude::*;
use crate::physics::coordinates::{adjacent, lemma_faces_are_the_adjacent, Coordinates};
use crate::lighting::color::{dimmed, step_cost, within, merged, brightness, dark};
use crate::lighting::color::{lemma_within_order, lemma_merged_is_join, lemma_dimmed};
use crate::lighting::finite_sum::{sum_over, lemma_sum_change};

verus! {

/// Light may enter the voxel at `c`.
pub open spec fn passable(opacity: spec_fn(Coordinates) -> u8, c: Coordinates) -> bool {
    opacity(c) != 255
}

/// The positions that light may enter.
pub open spec fn passable_set(opacity: spec_fn(Coordinates) -> u8) -> Set<Coordinates> {
    Set::new(|c: Coordinates| passable(opacity, c))
}

/// The light that `from` hands to its neighbour `to`.
pub open spec fn offered(
    opacity: spec_fn(Coordinates) -> u8,
    attenuation: u8,
    field: spec_fn(Coordinates) -> [u8; 3],
    from: Coordinates,
    to: Coordinates,
) -> [u8; 3] {
    dimmed(field(from), step_cost(attenuation, opacity(to)))
}

/// `low` is at most `high` at every position.
pub open spec fn field_within(
    low: spec_fn(Coordinates) -> [u8; 3],
    high: spec_fn(Coordinates) -> [u8; 3],
) -> bool {
    forall|c: Coordinates| #[trigger] within(low(c), high(c))
}

/// The position hands its light on: it is a source, or it holds light that
/// the base field did not give it.
pub open spec fn emits(
    base: spec_fn(Coordinates) -> [u8; 3],
    sources: Set<Coordinates>,
    field: spec_fn(Coordinates) -> [u8; 3],
    p: Coordinates,
) -> bool {
    sources.contains(p) || field(p) != base(p)
}

/// Every passable neighbour of `p` holds at least what `p` offers it.
pub open spec fn relaxed(
    opacity: spec_fn(Coordinates) -> u8,
    attenuation: u8,
    field: spec_fn(Coordinates) -> [u8; 3],
    p: Coordinates,
) -> bool {
    forall|n: Coordinates| #[trigger]
        adjacent(p, n) && passable(opacity, n) ==> within(
            offered(opacity, attenuation, field, p, n),
            field(n),
        )
}

/// The field covers the base and every emitting position is relaxed.
pub open spec fn settled(
    opacity: spec_fn(Coordinates) -> u8,
    attenuation: u8,
    base: spec_fn(Coordinates) -> [u8; 3],
    sources: Set<Coordinates>,
    field: spec_fn(Coordinates) -> [u8; 3],
) -> bool {
    &&& field_within(base, field)
    &&& forall|p: Coordinates| #[trigger]
        emits(base, sources, field, p) ==> relaxed(opacity, attenuation, field, p)
}

/// The field lies below every settled field.
pub open spec fn below_every_settled(
    opacity: spec_fn(Coordinates) -> u8,
    attenuation: u8,
    base: spec_fn(Coordinates) -> [u8; 3],
    sources: Set<Coordinates>,
    field: spec_fn(Coordinates) -> [u8; 3],
) -> bool {
    forall|other: spec_fn(Coordinates) -> [u8; 3]| #[trigger]
        settled(opacity, attenuation, base, sources, other) ==> field_within(field, other)
}

/// The field is the flood of `base` from `sources`: the least settled field.
pub open spec fn is_flood(
    opacity: spec_fn(Coordinates) -> u8,
    attenuation: u8,
    base: spec_fn(Coordinates) -> [u8; 3],
    sources: Set<Coordinates>,
    field: spec_fn(Coordinates) -> [u8; 3],
) -> bool {
    &&& settled(opacity, attenuation, base, sources, field)
    &&& below_every_settled(opacity, attenuation, base, sources, field)
}

/// How much light the passable voxels could still gain before every channel
/// of every one of them is full.
pub open spec fn headroom(
    opacity: spec_fn(Coordinates) -> u8,
    field: spec_fn(Coordinates) -> [u8; 3],
) -> nat {
    sum_over(passable_set(opacity), |c: Coordinates| (765 - brightness(field(c))) as nat)
}

/// How much light the passable voxels hold.
pub open spec fn glow(
    opacity: spec_fn(Coordinates) -> u8,
    field: spec_fn(Coordinates) -> [u8; 3],
) -> nat {
    sum_over(passable_set(opacity), |c: Coordinates| brightness(field(c)) as nat)
}

/// `after` is `before` with the light at `at` replaced by `value`.
pub open spec fn replaced(
    before: spec_fn(Coordinates) -> [u8; 3],
    after: spec_fn(Coordinates) -> [u8; 3],
    at: Coordinates,
    value: [u8; 3],
) -> bool {
    forall|c: Coordinates| #[trigger] after(c) == if c == at { value } else { before(c) }
}

/// Two floods of the same base from the same sources are the same field.
pub proof fn lemma_flood_is_unique(
    opacity: spec_fn(Coordinates) -> u8,
    attenuation: u8,
    base: spec_fn(Coordinates) -> [u8; 3],
    sources: Set<Coordinates>,
    first: spec_fn(Coordinates) -> [u8; 3],
    second: spec_fn(Coordinates) -> [u8; 3],
    c: Coordinates,
)
    requires
        is_flood(opacity, attenuation, base, sources, first),
        is_flood(opacity, attenuation, base, sources, second),
    ensures
        first(c) == second(c),
{
    assert(field_within(first, second));
    assert(field_within(second, first));
    assert(within(first(c), second(c)));
    assert(within(second(c), first(c)));
    lemma_within_order(first(c), second(c), first(c));
}

/// Raising the light of a passable voxel uses up headroom.
pub proof fn lemma_raise_uses_headroom(
    opacity: spec_fn(Coordinates) -> u8,
    before: spec_fn(Coordinates) -> [u8; 3],
    after: spec_fn(Coordinates) -> [u8; 3],
    at: Coordinates,
    value: [u8; 3],
)
    requires
        passable_set(opacity).finite(),
        passable(opacity, at),
        replaced(before, after, at, value),
        within(before(at), value),
        before(at) != value,
    ensures
        headroom(opacity, after) < headroom(opacity, before),
{
    let f = |c: Coordinates| (765 - brightness(before(c))) as nat;
    let g = |c: Coordinates| (765 - brightness(after(c))) as nat;
    assert forall|y: Coordinates| passable_set(opacity).contains(y) && y != at implies #[trigger] f(
        y,
    ) == g(y) by {
        assert(after(y) == before(y));
    }
    lemma_sum_change(passable_set(opacity), f, g, at);
    assert(after(at) == value);
    if brightness(before(at)) == brightness(value) {
        crate::lighting::color::lemma_same_channels(before(at), value);
    }
}

/// Putting out the light of a lit passable voxel lowers the glow.
pub proof fn lemma_darken_lowers_glow(
    opacity: spec_fn(Coordinates) -> u8,
    before: spec_fn(Coordinates) -> [u8; 3],
    after: spec_fn(Coordinates) -> [u8; 3],
    at: Coordinates,
)
    requires
        passable_set(opacity).finite(),
        passable(opacity, at),
        replaced(before, after, at, dark()),
        before(at) != dark(),
    ensures
        glow(opacity, after) < glow(opacity, before),
{
    let f = |c: Coordinates| brightness(before(c)) as nat;
    let g = |c: Coordinates| brightness(after(c)) as nat;
    assert forall|y: Coordinates| passable_set(opacity).contains(y) && y != at implies #[trigger] f(
        y,
    ) == g(y) by {
        assert(after(y) == before(y));
    }
    lemma_sum_change(passable_set(opacity), f, g, at);
    assert(after(at) == dark());
    lemma_within_order(before(at), before(at), before(at));
}

/// A field below every settled field stays so when an emitting position
/// raises a passable neighbour to what it offers.
pub proof fn lemma_raise_stays_below(
    opacity: spec_fn(Coordinates) -> u8,
    attenuation: u8,
    base: spec_fn(Coordinates) -> [u8; 3],
    sources: Set<Coordinates>,
    before: spec_fn(Coordinates) -> [u8; 3],
    after: spec_fn(Coordinates) -> [u8; 3],
    p: Coordinates,
    n: Coordinates,
)
    requires
        field_within(base, before),
        below_every_settled(opacity, attenuation, base, sources, before),
        emits(base, sources, before, p),
        adjacent(p, n),
        passable(opacity, n),
        replaced(before, after, n, merged(offered(opacity, attenuation, before, p, n), before(n))),
    ensures
        below_every_settled(opacity, attenuation, base, sources, after),
{
    assert forall|other: spec_fn(Coordinates) -> [u8; 3]| #[trigger]
        settled(opacity, attenuation, base, sources, other) implies field_within(after, other) by {
        assert(field_within(before, other));
        assert(within(before(p), other(p)));
        assert(within(base(p), before(p)));
        lemma_within_order(base(p), before(p), other(p));
        assert(emits(base, sources, other, p));
        assert(relaxed(opacity, attenuation, other, p));
        assert(adjacent(p, n) && passable(opacity, n));
        let cost = step_cost(attenuation, opacity(n));
        lemma_dimmed(before(p), other(p), cost, 0);
        lemma_within_order(
            offered(opacity, attenuation, before, p, n),
            offered(opacity, attenuation, other, p, n),
            other(n),
        );
        assert(within(before(n), other(n)));
        lemma_merged_is_join(offered(opacity, attenuation, before, p, n), before(n), other(n));
        assert forall|c: Coordinates| #[trigger] within(after(c), other(c)) by {
            assert(after(c) == if c == n {
                merged(offered(opacity, attenuation, before, p, n), before(n))
            } else {
                before(c)
            });
            assert(within(before(c), other(c)));
        }
    }
}

/// What `p` owes the position across one of its faces has been paid.
pub open spec fn served(
    opacity: spec_fn(Coordinates) -> u8,
    attenuation: u8,
    field: spec_fn(Coordinates) -> [u8; 3],
    p: Coordinates,
    face: int,
) -> bool {
    match p.spec_neighbor(face) {
        Some(n) => passable(opacity, n) ==> within(
            offered(opacity, attenuation, field, p, n),
            field(n),
        ),
        None => true,
    }
}

/// A position that has served all six faces is relaxed.
pub proof fn lemma_served_is_relaxed(
    opacity: spec_fn(Coordinates) -> u8,
    attenuation: u8,
    field: spec_fn(Coordinates) -> [u8; 3],
    p: Coordinates,
)
    requires
        forall|face: int| 0 <= face < 6 ==> #[trigger] served(opacity, attenuation, field, p, face),
    ensures
        relaxed(opacity, attenuation, field, p),
{
    assert forall|n: Coordinates| #[trigger] adjacent(p, n) && passable(opacity, n) implies within(
        offered(opacity, attenuation, field, p, n),
        field(n),
    ) by {
        lemma_faces_are_the_adjacent(p, n);
        let face = choose|face: int| 0 <= face < 6 && p.spec_neighbor(face) == Some(n);
        assert(served(opacity, attenuation, field, p, face));
    }
}

/// Raising the light of one voxel leaves every other position relaxed, and
/// keeps what any other position has already served.
pub proof fn lemma_raise_keeps_relaxed(
    opacity: spec_fn(Coordinates) -> u8,
    attenuation: u8,
    before: spec_fn(Coordinates) -> [u8; 3],
    after: spec_fn(Coordinates) -> [u8; 3],
    at: Coordinates,
    value: [u8; 3],
    q: Coordinates,
)
    requires
        replaced(before, after, at, value),
        within(before(at), value),
        q != at,
    ensures
        relaxed(opacity, attenuation, before, q) ==> relaxed(opacity, attenuation, after, q),
        forall|face: int| #[trigger]
            served(opacity, attenuation, before, q, face) ==> served(
                opacity,
                attenuation,
                after,
                q,
                face,
            ),
{
    assert(after(q) == before(q));
    if relaxed(opacity, attenuation, before, q) {
        assert forall|n: Coordinates| #[trigger]
            adjacent(q, n) && passable(opacity, n) implies within(
            offered(opacity, attenuation, after, q, n),
            after(n),
        ) by {
            assert(after(n) == if n == at { value } else { before(n) });
            lemma_within_order(offered(opacity, attenuation, before, q, n), before(n), after(n));
        }
    }
    assert forall|face: int| #[trigger]
        served(opacity, attenuation, before, q, face) implies served(
        opacity,
        attenuation,
        after,
        q,
        face,
    ) by {
        match q.spec_neighbor(face) {
            Some(n) => {
                assert(after(n) == if n == at { value } else { before(n) });
                if passable(opacity, n) {
                    lemma_within_order(
                        offered(opacity, attenuation, before, q, n),
                        before(n),
                        after(n),
                    );
                }
            },
            None => {},
        }
    }
}

/// Raising the light of one voxel keeps every emitting position emitting.
pub proof fn lemma_raise_keeps_emitting(
    base: spec_fn(Coordinates) -> [u8; 3],
    sources: Set<Coordinates>,
    before: spec_fn(Coordinates) -> [u8; 3],
    after: spec_fn(Coordinates) -> [u8; 3],
    at: Coordinates,
    value: [u8; 3],
    q: Coordinates,
)
    requires
        replaced(before, after, at, value),
        within(base(at), before(at)),
        within(before(at), value),
        emits(base, sources, before, q),
    ensures
        emits(base, sources, after, q),
        within(base(at), value),
{
    assert(after(q) == if q == at { value } else { before(q) });
    lemma_within_order(base(at), before(at), value);
    if q == at && value == base(at) {
        lemma_within_order(before(at), value, before(at));
    }
}

/// Being settled, and being the flood, depend on the medium and the base only
/// through their values.
pub proof fn lemma_flood_congruent(
    opacity: spec_fn(Coordinates) -> u8,
    same_opacity: spec_fn(Coordinates) -> u8,
    attenuation: u8,
    base: spec_fn(Coordinates) -> [u8; 3],
    same_base: spec_fn(Coordinates) -> [u8; 3],
    sources: Set<Coordinates>,
    field: spec_fn(Coordinates) -> [u8; 3],
)
    requires
        forall|c: Coordinates| #[trigger] opacity(c) == same_opacity(c),
        forall|c: Coordinates| #[trigger] base(c) == same_base(c),
    ensures
        settled(opacity, attenuation, base, sources, field) ==> settled(
            same_opacity,
            attenuation,
            same_base,
            sources,
            field,
        ),
        is_flood(opacity, attenuation, base, sources, field) ==> is_flood(
            same_opacity,
            attenuation,
            same_base,
            sources,
            field,
        ),
{
    lemma_settled_congruent(opacity, same_opacity, attenuation, base, same_base, sources, field);
    if is_flood(opacity, attenuation, base, sources, field) {
        assert forall|other: spec_fn(Coordinates) -> [u8; 3]| #[trigger]
            settled(same_opacity, attenuation, same_base, sources, other) implies field_within(
            field,
            other,
        ) by {
            lemma_settled_congruent(
                same_opacity,
                opacity,
                attenuation,
                same_base,
                base,
                sources,
                other,
            );
        }
    }
}

proof fn lemma_settled_congruent(
    opacity: spec_fn(Coordinates) -> u8,
    same_opacity: spec_fn(Coordinates) -> u8,
    attenuation: u8,
    base: spec_fn(Coordinates) -> [u8; 3],
    same_base: spec_fn(Coordinates) -> [u8; 3],
    sources: Set<Coordinates>,
    field: spec_fn(Coordinates) -> [u8; 3],
)
    requires
        forall|c: Coordinates| #[trigger] opacity(c) == same_opacity(c),
        forall|c: Coordinates| #[trigger] base(c) == same_base(c),
    ensures
        settled(opacity, attenuation, base, sources, field) ==> settled(
            same_opacity,
            attenuation,
            same_base,
            sources,
            field,
        ),
{
    if settled(opacity, attenuation, base, sources, field) {
        assert forall|c: Coordinates| #[trigger] within(same_base(c), field(c)) by {
            assert(within(base(c), field(c)));
            assert(base(c) == same_base(c));
        }
        assert forall|p: Coordinates| #[trigger]
            emits(same_base, sources, field, p) implies relaxed(
            same_opacity,
            attenuation,
            field,
            p,
        ) by {
            assert(base(p) == same_base(p));
            assert(emits(base, sources, field, p));
            assert(relaxed(opacity, attenuation, field, p));
            assert forall|n: Coordinates| #[trigger]
                adjacent(p, n) && passable(same_opacity, n) implies within(
                offered(same_opacity, attenuation, field, p, n),
                field(n),
            ) by {
                assert(opacity(n) == same_opacity(n));
                assert(adjacent(p, n) && passable(opacity, n));
            }
        }
    }
}

/// Sources whose base light is dark and that gain none make no difference:
/// the flood from a set of sources is also the flood from any smaller set
/// that leaves out only positions dark in the base.
pub proof fn lemma_dark_sources_are_idle(
    opacity: spec_fn(Coordinates) -> u8,
    attenuation: u8,
    base: spec_fn(Coordinates) -> [u8; 3],
    sources: Set<Coordinates>,
    fewer: Set<Coordinates>,
    field: spec_fn(Coordinates) -> [u8; 3],
)
    requires
        fewer.subset_of(sources),
        forall|c: Coordinates| sources.contains(c) && !fewer.contains(c) ==> #[trigger] base(c) == dark(),
        is_flood(opacity, attenuation, base, sources, field),
    ensures
        is_flood(opacity, attenuation, base, fewer, field),
{
    assert forall|p: Coordinates| #[trigger] emits(base, fewer, field, p) implies relaxed(
        opacity,
        attenuation,
        field,
        p,
    ) by {
        assert(emits(base, sources, field, p));
    }
    assert forall|other: spec_fn(Coordinates) -> [u8; 3]| #[trigger]
        settled(opacity, attenuation, base, fewer, other) implies field_within(field, other) by {
        assert forall|p: Coordinates| #[trigger] emits(base, sources, other, p) implies relaxed(
            opacity,
            attenuation,
            other,
            p,
        ) by {
            if !emits(base, fewer, other, p) {
                assert(other(p) == base(p));
                assert(base(p) == dark());
                assert forall|n: Coordinates| #[trigger]
                    adjacent(p, n) && passable(opacity, n) implies within(
                    offered(opacity, attenuation, other, p, n),
                    other(n),
                ) by {
                    lemma_dimmed(
                        other(p),
                        other(p),
                        step_cost(attenuation, opacity(n)),
                        0,
                    );
                    lemma_within_order(
                        offered(opacity, attenuation, other, p, n),
                        other(n),
                        other(n),
                    );
                }
            }
        }
        assert(settled(opacity, attenuation, base, sources, other));
    }
}

} // verus!
