//! Retraction of light that came from removed sources.
//!
//! Removal works in two passes. The *siphon* pass puts out the removal seeds
//! and then, outward from them, every lit voxel whose light is exactly what a
//! voxel already put out would have handed it. Lit voxels next to the
//! put-out region that do not fit that test hold light of another origin; the
//! *refill* pass floods from them into the region that was put out.
//!
//! The outcome does not depend on the order in which voxels are visited: the
//! voxels put out are the `drained` ones, the least set that holds the seeds
//! and every voxel derived from a member.

use std::collections::VecDeque;
use vstd::prelude::*;
use crate::physics::coordinates::{adjacent, lemma_faces_are_the_adjacent, Coordinates};
use crate::lighting::color::{cost_of_step, dim, is_unlit, same_light};
use crate::lighting::color::{dark, is_dark, step_cost};
use crate::lighting::color::{lemma_dimmed, lemma_within_order};
use crate::lighting::field::{glow, is_flood, offered, passable, passable_set, replaced};
use crate::lighting::field::{
    lemma_darken_lowers_glow, lemma_dark_sources_are_idle, lemma_flood_congruent,
};
use crate::lighting::lighting_world::{bounded, light_field, opacity_field, same_medium, LightingWorld};
use crate::lighting::propagation::{at_height, lemma_push_contains, lemma_tail_contains, spread};

verus! {

/// The lit voxel `n` holds exactly what its neighbour `p` hands it.
pub open spec fn derived_from(
    opacity: spec_fn(Coordinates) -> u8,
    attenuation: u8,
    field: spec_fn(Coordinates) -> [u8; 3],
    p: Coordinates,
    n: Coordinates,
) -> bool {
    &&& adjacent(p, n)
    &&& !is_dark(field(n))
    &&& field(n) == offered(opacity, attenuation, field, p, n)
}

/// A derived voxel is passable: what is handed to a voxel of opacity 255 is
/// no light at all.
pub proof fn lemma_derived_is_passable(
    opacity: spec_fn(Coordinates) -> u8,
    attenuation: u8,
    field: spec_fn(Coordinates) -> [u8; 3],
    p: Coordinates,
    n: Coordinates,
)
    requires
        derived_from(opacity, attenuation, field, p, n),
    ensures
        passable(opacity, n),
{
    if !passable(opacity, n) {
        lemma_dimmed(field(p), field(p), step_cost(attenuation, opacity(n)), 0);
        lemma_within_order(field(n), field(n), field(n));
    }
}

/// The position has a neighbour in the region.
pub open spec fn beside(region: Set<Coordinates>, c: Coordinates) -> bool {
    exists|q: Coordinates| #[trigger] adjacent(q, c) && region.contains(q)
}

/// The set holds the seeds and, with each member, every voxel whose light is
/// derived from it.
pub open spec fn drains(
    opacity: spec_fn(Coordinates) -> u8,
    attenuation: u8,
    field: spec_fn(Coordinates) -> [u8; 3],
    seeds: Set<Coordinates>,
    region: Set<Coordinates>,
) -> bool {
    &&& forall|c: Coordinates| seeds.contains(c) ==> region.contains(c)
    &&& forall|p: Coordinates, n: Coordinates|
        region.contains(p) && #[trigger] derived_from(opacity, attenuation, field, p, n)
            ==> region.contains(n)
}

/// The position is a seed or is reached from a seed by a chain of voxels
/// each derived from the one before: it lies in every set that `drains`.
pub open spec fn drained(
    opacity: spec_fn(Coordinates) -> u8,
    attenuation: u8,
    field: spec_fn(Coordinates) -> [u8; 3],
    seeds: Set<Coordinates>,
    c: Coordinates,
) -> bool {
    forall|region: Set<Coordinates>| #[trigger]
        drains(opacity, attenuation, field, seeds, region) ==> region.contains(c)
}

/// The light of a world after the siphon pass: dark where a stored position
/// is drained, untouched elsewhere.
pub open spec fn siphoned<W: LightingWorld>(
    world: W,
    seeds: Set<Coordinates>,
    attenuation: u8,
) -> spec_fn(Coordinates) -> [u8; 3] {
    |c: Coordinates|
        if world.contains(c) && drained(
            opacity_field(world),
            attenuation,
            light_field(world),
            seeds,
            c,
        ) {
            dark()
        } else {
            world.light_at(c)
        }
}

/// The drained positions of a world.
pub open spec fn drained_set<W: LightingWorld>(
    world: W,
    seeds: Set<Coordinates>,
    attenuation: u8,
) -> Set<Coordinates> {
    Set::new(
        |c: Coordinates|
            drained(opacity_field(world), attenuation, light_field(world), seeds, c),
    )
}

/// The voxels beside the drained region that are still lit after the siphon
/// pass: where the refill starts.
pub open spec fn refill_sources<W: LightingWorld>(
    world: W,
    seeds: Set<Coordinates>,
    attenuation: u8,
) -> Set<Coordinates> {
    Set::new(
        |n: Coordinates|
            !is_dark(siphoned(world, seeds, attenuation)(n)) && beside(
                drained_set(world, seeds, attenuation),
                n,
            ),
    )
}

/// The positions named by a list of removal seeds.
pub open spec fn removal_seeds(seeds: Seq<Coordinates>) -> Set<Coordinates> {
    Set::new(|c: Coordinates| seeds.contains(c))
}

/// While the siphon runs, a stored position that has been put out is dark and
/// every other position holds what it held at the start.
spec fn siphon_light<W: LightingWorld>(start: W, now: W, out: Set<Coordinates>) -> bool {
    forall|c: Coordinates| #[trigger]
        now.light_at(c) == if out.contains(c) && start.contains(c) {
            dark()
        } else {
            start.light_at(c)
        }
}

/// While the siphon runs, the queue names only positions that were put out,
/// each with the light it held at the start or with no light, and every
/// position put out has been dealt with or waits with the light it held.
spec fn siphon_queue(
    orig: spec_fn(Coordinates) -> [u8; 3],
    out: Set<Coordinates>,
    done: Set<Coordinates>,
    queue: Seq<(Coordinates, [u8; 3])>,
) -> bool {
    &&& forall|k: int|
        0 <= k < queue.len() ==> out.contains((#[trigger] queue[k]).0) && (queue[k].1 == orig(
            queue[k].0,
        ) || queue[k].1 == dark())
    &&& forall|c: Coordinates|
        out.contains(c) ==> done.contains(c) || queue.contains((c, orig(c)))
}

/// The siphon has dealt with the position across one face of `p`: if its
/// light is derived from `p` it has been put out, and if it is still lit it
/// is listed for the refill.
spec fn face_siphoned(
    opacity: spec_fn(Coordinates) -> u8,
    attenuation: u8,
    orig: spec_fn(Coordinates) -> [u8; 3],
    now: spec_fn(Coordinates) -> [u8; 3],
    out: Set<Coordinates>,
    refill: Seq<Coordinates>,
    p: Coordinates,
    face: int,
) -> bool {
    match p.spec_neighbor(face) {
        Some(n) => {
            &&& derived_from(opacity, attenuation, orig, p, n) ==> out.contains(n)
            &&& !is_dark(now(n)) ==> refill.contains(n)
        },
        None => true,
    }
}

proof fn lemma_queue_grows(
    orig: spec_fn(Coordinates) -> [u8; 3],
    out: Set<Coordinates>,
    done: Set<Coordinates>,
    queue: Seq<(Coordinates, [u8; 3])>,
    position: Coordinates,
    held: [u8; 3],
)
    requires
        siphon_queue(orig, out, done, queue),
        held == orig(position) || (held == dark() && out.contains(position)),
    ensures
        siphon_queue(orig, out.insert(position), done, queue.push((position, held))),
{
    let longer = queue.push((position, held));
    assert forall|k: int| 0 <= k < longer.len() implies out.insert(position).contains(
        (#[trigger] longer[k]).0,
    ) && (longer[k].1 == orig(longer[k].0) || longer[k].1 == dark()) by {
        if k < queue.len() {
            assert(longer[k] == queue[k]);
        }
    }
    assert forall|c: Coordinates| out.insert(position).contains(c) implies done.contains(c)
        || longer.contains((c, orig(c))) by {
        lemma_push_contains(queue, (position, held), (c, orig(c)));
    }
}

/// `after` is what `unpropagate` makes of `before` when the seeds are the
/// given set: the same medium, holding the flood of the siphoned light from
/// the refill sources.
pub open spec fn unpropagates<W: LightingWorld>(
    before: W,
    seeds: Set<Coordinates>,
    attenuation: u8,
    after: W,
) -> bool {
    &&& after.wf()
    &&& same_medium(before, after)
    &&& is_flood(
        opacity_field(before),
        attenuation,
        siphoned(before, seeds, attenuation),
        refill_sources(before, seeds, attenuation),
        light_field(after),
    )
}

/// Retracts the light that spread from the given seeds, then refills the
/// region that went dark from the light that remains around it.
///
/// The siphon pass puts out every seed. Then, outward from the seeds, a lit
/// neighbour of a voxel that was put out is put out as well if its light is
/// exactly what that voxel, with the light it held, would have handed it;
/// any other lit neighbour is kept and listed for the refill. The refill pass
/// is one flood of the light that is left, from the listed voxels.
///
/// The siphon takes light for derived only where it matches in every channel.
/// Light in which several sources overlap does not match and is kept, so
/// removal is an approximation and not the inverse of `propagate`; for the
/// only source of a dark world it is exact.
pub fn unpropagate<W: LightingWorld>(world: &mut W, seeds: &[Coordinates], attenuation: u8)
    requires
        old(world).wf(),
        bounded(*old(world)),
    ensures
        unpropagates(*old(world), removal_seeds(seeds@), attenuation, *final(world)),
{
    let ghost opacity = opacity_field(*old(world));
    let ghost orig = light_field(*old(world));
    let ghost seed_set = removal_seeds(seeds@);
    let ghost mut out: Set<Coordinates> = Set::empty();
    let ghost mut done: Set<Coordinates> = Set::empty();
    let mut queue: VecDeque<(Coordinates, [u8; 3])> = VecDeque::new();
    let mut refill: VecDeque<Coordinates> = VecDeque::new();

    let mut i: usize = 0;
    while i < seeds.len()
        invariant
            world.wf(),
            same_medium(*old(world), *world),
            bounded(*old(world)),
            opacity == opacity_field(*old(world)),
            orig == light_field(*old(world)),
            i <= seeds.len(),
            refill@.len() == 0,
            done == Set::<Coordinates>::empty(),
            forall|c: Coordinates| out.contains(c) <==> seeds@.take(i as int).contains(c),
            siphon_light(*old(world), *world, out),
            siphon_queue(orig, out, done, queue@),
        decreases seeds.len() - i,
    {
        let seed = seeds[i];
        let held = world.get_light(seed);
        let ghost queued = queue@;
        let ghost was_out = out;
        world.set_light(seed, [0, 0, 0]);
        queue.push_back((seed, held));
        proof {
            out = out.insert(seed);
            let sofar = seeds@.take(i as int);
            let next = seeds@.take(i + 1);
            assert(next == sofar.push(seed));
            assert forall|c: Coordinates| out.contains(c) <==> next.contains(c) by {
                lemma_push_contains(sofar, seed, c);
            }
            lemma_queue_grows(orig, was_out, done, queued, seed, held);
        }
        i += 1;
    }
    proof {
        assert(seeds@.take(seeds@.len() as int) == seeds@);
    }

    while queue.len() > 0
        invariant
            world.wf(),
            same_medium(*old(world), *world),
            opacity == opacity_field(*old(world)),
            orig == light_field(*old(world)),
            seed_set == removal_seeds(seeds@),
            passable_set(opacity).finite(),
            forall|c: Coordinates| seed_set.contains(c) ==> out.contains(c),
            siphon_light(*old(world), *world, out),
            siphon_queue(orig, out, done, queue@),
            forall|region: Set<Coordinates>| #[trigger]
                drains(opacity, attenuation, orig, seed_set, region) ==> out.subset_of(region),
            forall|p: Coordinates, n: Coordinates|
                done.contains(p) && #[trigger] derived_from(opacity, attenuation, orig, p, n)
                    ==> out.contains(n),
            forall|p: Coordinates, n: Coordinates|
                done.contains(p) && #[trigger] adjacent(p, n) && !is_dark(world.light_at(n))
                    ==> refill@.contains(n),
            forall|k: int| 0 <= k < refill@.len() ==> beside(out, #[trigger] refill@[k]),
            done.subset_of(out),
        decreases glow(opacity, light_field(*world)), queue@.len(),
    {
        let ghost waiting = queue@;
        let popped = queue.pop_front();
        let (p, held) = popped.unwrap();
        let ghost start = *world;
        let ghost rest = queue@;
        let ghost faithful = held == orig(p);
        proof {
            assert(waiting[0] == (p, held));
            assert(out.contains(waiting[0].0));
            assert forall|k: int| 0 <= k < queue@.len() implies out.contains(
                (#[trigger] queue@[k]).0,
            ) && (queue@[k].1 == orig(queue@[k].0) || queue@[k].1 == dark()) by {
                assert(queue@[k] == waiting[k + 1]);
            }
            assert forall|c: Coordinates|
                out.contains(c) && !(c == p && faithful) implies done.contains(c) || queue@.contains(
                (c, orig(c)),
            ) by {
                if !done.contains(c) {
                    lemma_tail_contains(waiting, (c, orig(c)));
                }
            }
        }
        let mut face: usize = 0;
        while face < 6
            invariant
                world.wf(),
                same_medium(*old(world), *world),
                opacity == opacity_field(*old(world)),
                orig == light_field(*old(world)),
                seed_set == removal_seeds(seeds@),
                passable_set(opacity).finite(),
                face <= 6,
                out.contains(p),
                held == orig(p) || held == dark(),
                faithful == (held == orig(p)),
                forall|c: Coordinates| seed_set.contains(c) ==> out.contains(c),
                siphon_light(*old(world), *world, out),
                forall|k: int|
                    0 <= k < queue@.len() ==> out.contains((#[trigger] queue@[k]).0) && (
                    queue@[k].1 == orig(queue@[k].0) || queue@[k].1 == dark()),
                forall|c: Coordinates|
                    out.contains(c) && !(c == p && faithful) ==> done.contains(c)
                        || queue@.contains((c, orig(c))),
                forall|region: Set<Coordinates>| #[trigger]
                    drains(opacity, attenuation, orig, seed_set, region) ==> out.subset_of(region),
                forall|q: Coordinates, n: Coordinates|
                    done.contains(q) && #[trigger] derived_from(opacity, attenuation, orig, q, n)
                        ==> out.contains(n),
                forall|q: Coordinates, n: Coordinates|
                    done.contains(q) && #[trigger] adjacent(q, n) && !is_dark(world.light_at(n))
                        ==> refill@.contains(n),
                forall|k: int| 0 <= k < refill@.len() ==> beside(out, #[trigger] refill@[k]),
                done.subset_of(out),
                forall|k: int|
                    0 <= k < face && faithful ==> #[trigger] face_siphoned(
                        opacity,
                        attenuation,
                        orig,
                        light_field(*world),
                        out,
                        refill@,
                        p,
                        k,
                    ),
                queue@.len() >= rest.len(),
                glow(opacity, light_field(*world)) + (queue@.len() - rest.len()) <= glow(
                    opacity,
                    light_field(start),
                ),
            decreases 6 - face,
        {
            match p.neighbor(face) {
                Some(n) => {
                    proof {
                        lemma_faces_are_the_adjacent(p, n);
                    }
                    let current = world.get_light(n);
                    if !is_unlit(current) {
                        let opacity_here = world.get_opacity(n);
                        let expected = dim(held, cost_of_step(attenuation, opacity_here));
                        proof {
                            assert(opacity(n) == opacity_here);
                            assert(current == orig(n));
                            assert(orig(p) == old(world).light_at(p));
                        }
                        if same_light(current, expected) {
                            let ghost before = *world;
                            let ghost queued = queue@;
                            let ghost was_out = out;
                            world.set_light(n, [0, 0, 0]);
                            queue.push_back((n, current));
                            proof {
                                if held == dark() {
                                    lemma_dimmed(
                                        held,
                                        held,
                                        step_cost(attenuation, opacity_here),
                                        0,
                                    );
                                }
                                assert(faithful);
                                assert(derived_from(opacity, attenuation, orig, p, n));
                                lemma_derived_is_passable(opacity, attenuation, orig, p, n);
                                if !world.contains(n) {
                                    world.lemma_outside_is_opaque(n);
                                }
                                assert(old(world).contains(n));
                                assert(!was_out.contains(n));
                                out = out.insert(n);
                                assert(replaced(
                                    light_field(before),
                                    light_field(*world),
                                    n,
                                    dark(),
                                ));
                                lemma_within_order(current, current, current);
                                lemma_darken_lowers_glow(
                                    opacity,
                                    light_field(before),
                                    light_field(*world),
                                    n,
                                );
                                assert forall|region: Set<Coordinates>| #[trigger]
                                    drains(
                                        opacity,
                                        attenuation,
                                        orig,
                                        seed_set,
                                        region,
                                    ) implies out.subset_of(region) by {
                                    assert(was_out.subset_of(region));
                                    assert(region.contains(p));
                                    assert(region.contains(n));
                                }
                                assert forall|k: int| 0 <= k < queue@.len() implies out.contains(
                                    (#[trigger] queue@[k]).0,
                                ) && (queue@[k].1 == orig(queue@[k].0) || queue@[k].1
                                    == dark()) by {
                                    if k < queued.len() {
                                        assert(queue@[k] == queued[k]);
                                    }
                                }
                                assert forall|c: Coordinates|
                                    out.contains(c) && !(c == p && faithful) implies done.contains(
                                    c,
                                ) || queue@.contains((c, orig(c))) by {
                                    lemma_push_contains(queued, (n, current), (c, orig(c)));
                                }
                                assert forall|k: int| 0 <= k < refill@.len() implies beside(
                                    out,
                                    #[trigger] refill@[k],
                                ) by {
                                    assert(beside(was_out, refill@[k]));
                                    let q = choose|q: Coordinates| #[trigger]
                                        adjacent(q, refill@[k]) && was_out.contains(q);
                                    assert(adjacent(q, refill@[k]) && out.contains(q));
                                }
                                assert forall|k: int|
                                    0 <= k < face && faithful implies #[trigger] face_siphoned(
                                    opacity,
                                    attenuation,
                                    orig,
                                    light_field(*world),
                                    out,
                                    refill@,
                                    p,
                                    k,
                                ) by {
                                    assert(face_siphoned(
                                        opacity,
                                        attenuation,
                                        orig,
                                        light_field(before),
                                        was_out,
                                        refill@,
                                        p,
                                        k,
                                    ));
                                }
                            }
                        } else {
                            let ghost filled = refill@;
                            refill.push_back(n);
                            proof {
                                assert(refill@[filled.len() as int] == n);
                                assert(adjacent(p, n) && out.contains(p));
                                assert forall|k: int| 0 <= k < refill@.len() implies beside(
                                    out,
                                    #[trigger] refill@[k],
                                ) by {
                                    if k < filled.len() {
                                        assert(refill@[k] == filled[k]);
                                    } else {
                                        assert(refill@[k] == n);
                                    }
                                }
                                assert forall|q: Coordinates, m: Coordinates|
                                    done.contains(q) && #[trigger] adjacent(q, m) && !is_dark(
                                        world.light_at(m),
                                    ) implies refill@.contains(m) by {
                                    lemma_push_contains(filled, n, m);
                                }
                                assert forall|k: int|
                                    0 <= k < face && faithful implies #[trigger] face_siphoned(
                                    opacity,
                                    attenuation,
                                    orig,
                                    light_field(*world),
                                    out,
                                    refill@,
                                    p,
                                    k,
                                ) by {
                                    assert(face_siphoned(
                                        opacity,
                                        attenuation,
                                        orig,
                                        light_field(*world),
                                        out,
                                        filled,
                                        p,
                                        k,
                                    ));
                                    match p.spec_neighbor(k) {
                                        Some(m) => {
                                            lemma_push_contains(filled, n, m);
                                        },
                                        None => {},
                                    }
                                }
                                lemma_push_contains(filled, n, n);
                            }
                        }
                    }
                },
                None => {},
            }
            face += 1;
        }
        proof {
            if faithful {
                done = done.insert(p);
                assert forall|q: Coordinates, n: Coordinates|
                    done.contains(q) && #[trigger] derived_from(
                        opacity,
                        attenuation,
                        orig,
                        q,
                        n,
                    ) implies out.contains(n) by {
                    if q == p {
                        lemma_faces_are_the_adjacent(p, n);
                        let k = choose|k: int| 0 <= k < 6 && p.spec_neighbor(k) == Some(n);
                        assert(face_siphoned(
                            opacity,
                            attenuation,
                            orig,
                            light_field(*world),
                            out,
                            refill@,
                            p,
                            k,
                        ));
                    }
                }
                assert forall|q: Coordinates, n: Coordinates|
                    done.contains(q) && #[trigger] adjacent(q, n) && !is_dark(
                        world.light_at(n),
                    ) implies refill@.contains(n) by {
                    if q == p {
                        lemma_faces_are_the_adjacent(p, n);
                        let k = choose|k: int| 0 <= k < 6 && p.spec_neighbor(k) == Some(n);
                        assert(face_siphoned(
                            opacity,
                            attenuation,
                            orig,
                            light_field(*world),
                            out,
                            refill@,
                            p,
                            k,
                        ));
                    }
                }
            }
        }
    }

    let ghost lit = Set::new(|c: Coordinates| refill@.contains(c));
    let ghost after_siphon = *world;
    spread(
        world,
        refill,
        attenuation,
        Ghost(opacity),
        Ghost(light_field(after_siphon)),
        Ghost(lit),
    );
    proof {
        let target = siphoned(*old(world), seed_set, attenuation);
        let sources = refill_sources(*old(world), seed_set, attenuation);
        assert(drains(opacity, attenuation, orig, seed_set, out));
        assert forall|c: Coordinates| out.contains(c) <==> drained(
            opacity,
            attenuation,
            orig,
            seed_set,
            c,
        ) by {
            if out.contains(c) {
                assert forall|region: Set<Coordinates>| #[trigger]
                    drains(opacity, attenuation, orig, seed_set, region) implies region.contains(
                    c,
                ) by {
                    assert(out.subset_of(region));
                }
            }
        }
        assert(out =~= drained_set(*old(world), seed_set, attenuation));
        assert forall|c: Coordinates| #[trigger] light_field(after_siphon)(c) == target(c) by {}
        lemma_flood_congruent(
            opacity,
            opacity,
            attenuation,
            light_field(after_siphon),
            target,
            lit,
            light_field(*world),
        );
        assert forall|c: Coordinates| sources.contains(c) implies lit.contains(c) by {
            let q = choose|q: Coordinates| #[trigger] adjacent(q, c) && out.contains(q);
            assert(done.contains(q));
            assert(adjacent(q, c));
            assert(after_siphon.light_at(c) == target(c));
        }
        assert forall|c: Coordinates| lit.contains(c) && !sources.contains(c) implies #[trigger] target(
            c,
        ) == dark() by {
            let k = choose|k: int| 0 <= k < refill@.len() && refill@[k] == c;
            assert(beside(out, refill@[k]));
            lemma_within_order(target(c), target(c), target(c));
        }
        lemma_dark_sources_are_idle(opacity, attenuation, target, lit, sources, light_field(*world));
    }
}

/// The voxels straight below `placed` that are passable and lit, down to
/// the first that is not: the shaft that a block placed at `placed` puts in
/// shadow.
pub open spec fn shadow_shaft<W: LightingWorld>(world: W, placed: Coordinates) -> Set<Coordinates> {
    Set::new(
        |c: Coordinates|
            {
                &&& c.x == placed.x
                &&& c.z == placed.z
                &&& c.y < placed.y
                &&& forall|y: int|
                    c.y <= y < placed.y ==> {
                        let above = #[trigger] at_height(c.x, y, c.z);
                        world.opacity_at(above) != 255 && !is_dark(world.light_at(above))
                    }
            },
    )
}

/// Retracts the sky light of the column below a newly placed block.
///
/// Walks straight down from the voxel below `placed_pos` while the voxel is
/// neither opaque nor unlit, and hands the voxels walked over to
/// `unpropagate` as removal seeds.
pub fn unpropagate_sky<W: LightingWorld>(world: &mut W, placed_pos: Coordinates, attenuation: u8)
    requires
        old(world).wf(),
        bounded(*old(world)),
    ensures
        unpropagates(
            *old(world),
            shadow_shaft(*old(world), placed_pos),
            attenuation,
            *final(world),
        ),
{
    let mut column: Vec<Coordinates> = Vec::new();
    let mut y: i64 = placed_pos.y as i64 - 1;
    let mut stopped = false;
    while y >= i32::MIN as i64 && !stopped
        invariant
            world.wf(),
            i32::MIN - 1 <= y < placed_pos.y,
            column@.len() == placed_pos.y - 1 - y,
            forall|k: int|
                0 <= k < column@.len() ==> #[trigger] column@[k] == at_height(
                    placed_pos.x,
                    placed_pos.y - 1 - k,
                    placed_pos.z,
                ),
            forall|h: int|
                y < h < placed_pos.y ==> {
                    let above = #[trigger] at_height(placed_pos.x, h, placed_pos.z);
                    world.opacity_at(above) != 255 && !is_dark(world.light_at(above))
                },
            stopped ==> i32::MIN <= y && {
                let here = at_height(placed_pos.x, y as int, placed_pos.z);
                world.opacity_at(here) == 255 || is_dark(world.light_at(here))
            },
        decreases y - i32::MIN + 1, if stopped { 0int } else { 1int },
    {
        let here = Coordinates::new(placed_pos.x, y as i32, placed_pos.z);
        assert(here == at_height(placed_pos.x, y as int, placed_pos.z));
        if world.get_opacity(here) == 255 || is_unlit(world.get_light(here)) {
            stopped = true;
        } else {
            column.push(here);
            y -= 1;
        }
    }
    proof {
        let shaft = shadow_shaft(*world, placed_pos);
        assert forall|c: Coordinates| shaft.contains(c) <==> removal_seeds(column@).contains(c) by {
            if shaft.contains(c) {
                if c.y <= y {
                    assert(i32::MIN <= y);
                    assert(at_height(c.x, y as int, c.z) == at_height(
                        placed_pos.x,
                        y as int,
                        placed_pos.z,
                    ));
                }
                assert(column@[placed_pos.y - 1 - c.y] == c);
            }
            if removal_seeds(column@).contains(c) {
                let k = choose|k: int| 0 <= k < column@.len() && column@[k] == c;
                assert(column@[k] == c);
            }
        }
        assert(shaft =~= removal_seeds(column@));
    }
    unpropagate(world, column.as_slice(), attenuation);
}

} // verus!
