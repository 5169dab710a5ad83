//! Per-channel saturating arithmetic on RGB light values.
//!
//! A light value is an array of three 8-bit channels. Every operation here
//! acts on the channels independently and never leaves the range `0..=255`.

use vstd::prelude::*;

verus! {

/// The light value with no light in any channel.
pub open spec fn dark() -> [u8; 3] {
    [0u8, 0u8, 0u8]
}

/// No channel carries any light.
pub open spec fn is_dark(light: [u8; 3]) -> bool {
    light[0] == 0 && light[1] == 0 && light[2] == 0
}

/// `low` is at most `high` in every channel.
pub open spec fn within(low: [u8; 3], high: [u8; 3]) -> bool {
    low[0] <= high[0] && low[1] <= high[1] && low[2] <= high[2]
}

/// The per-channel maximum of two light values.
pub open spec fn merged(a: [u8; 3], b: [u8; 3]) -> [u8; 3] {
    [
        if a[0] >= b[0] { a[0] } else { b[0] },
        if a[1] >= b[1] { a[1] } else { b[1] },
        if a[2] >= b[2] { a[2] } else { b[2] },
    ]
}

/// One channel reduced by `cost`, stopping at zero.
pub open spec fn dimmed_channel(value: u8, cost: int) -> u8 {
    if value > cost {
        (value - cost) as u8
    } else {
        0u8
    }
}

/// A light value reduced by `cost` in every channel, stopping at zero.
pub open spec fn dimmed(light: [u8; 3], cost: int) -> [u8; 3] {
    [
        dimmed_channel(light[0], cost),
        dimmed_channel(light[1], cost),
        dimmed_channel(light[2], cost),
    ]
}

/// What one step into a voxel of the given opacity costs: the fixed
/// attenuation plus the opacity, stopping at 255.
pub open spec fn step_cost(attenuation: u8, opacity: u8) -> int {
    if attenuation + opacity > 255 {
        255
    } else {
        attenuation + opacity
    }
}

/// The sum of the three channels.
pub open spec fn brightness(light: [u8; 3]) -> int {
    light[0] + light[1] + light[2]
}

/// Two light values with the same channels are the same value.
pub proof fn lemma_same_channels(a: [u8; 3], b: [u8; 3])
    requires
        a[0] == b[0],
        a[1] == b[1],
        a[2] == b[2],
    ensures
        a == b,
{
    assert(a =~= b);
}

/// `within` is a partial order whose least element is `dark`.
pub proof fn lemma_within_order(a: [u8; 3], b: [u8; 3], c: [u8; 3])
    ensures
        within(a, a),
        within(dark(), a),
        within(a, b) && within(b, c) ==> within(a, c),
        within(a, b) && within(b, a) ==> a == b,
        within(a, dark()) ==> a == dark(),
        is_dark(a) <==> a == dark(),
{
    if within(a, b) && within(b, a) {
        lemma_same_channels(a, b);
    }
    if is_dark(a) {
        lemma_same_channels(a, dark());
    }
}

/// `merged` is the least upper bound of its arguments.
pub proof fn lemma_merged_is_join(a: [u8; 3], b: [u8; 3], bound: [u8; 3])
    ensures
        within(a, merged(a, b)),
        within(b, merged(a, b)),
        within(a, bound) && within(b, bound) ==> within(merged(a, b), bound),
        within(b, a) ==> merged(a, b) == a,
        within(a, b) ==> merged(a, b) == b,
{
    if within(b, a) {
        lemma_same_channels(merged(a, b), a);
    }
    if within(a, b) {
        lemma_same_channels(merged(a, b), b);
    }
}

/// Dimming never brightens, keeps the order, and two dimmings in a row are
/// one dimming by the sum of the costs.
pub proof fn lemma_dimmed(a: [u8; 3], b: [u8; 3], cost: int, more: int)
    requires
        0 <= cost,
        0 <= more,
    ensures
        within(dimmed(a, cost), a),
        dimmed(a, 0) == a,
        within(a, b) ==> within(dimmed(a, cost), dimmed(b, cost)),
        cost <= more ==> within(dimmed(a, more), dimmed(a, cost)),
        dimmed(dimmed(a, cost), more) == dimmed(a, cost + more),
        cost >= 255 ==> dimmed(a, cost) == dark(),
        dimmed(merged(a, b), cost) == merged(dimmed(a, cost), dimmed(b, cost)),
        is_dark(a) ==> is_dark(dimmed(a, cost)),
{
    lemma_same_channels(dimmed(a, 0), a);
    lemma_same_channels(dimmed(dimmed(a, cost), more), dimmed(a, cost + more));
    if cost >= 255 {
        lemma_same_channels(dimmed(a, cost), dark());
    }
    lemma_same_channels(dimmed(merged(a, b), cost), merged(dimmed(a, cost), dimmed(b, cost)));
}

/// Returns the per-channel maximum of two light values.
pub fn merge(a: [u8; 3], b: [u8; 3]) -> (m: [u8; 3])
    ensures
        m == merged(a, b),
{
    let m = [
        if a[0] >= b[0] { a[0] } else { b[0] },
        if a[1] >= b[1] { a[1] } else { b[1] },
        if a[2] >= b[2] { a[2] } else { b[2] },
    ];
    proof {
        lemma_same_channels(m, merged(a, b));
    }
    m
}

/// Reduces every channel by `cost`, stopping at zero.
pub fn dim(light: [u8; 3], cost: u8) -> (d: [u8; 3])
    ensures
        d == dimmed(light, cost as int),
{
    let d = [
        if light[0] > cost { light[0] - cost } else { 0 },
        if light[1] > cost { light[1] - cost } else { 0 },
        if light[2] > cost { light[2] - cost } else { 0 },
    ];
    proof {
        lemma_same_channels(d, dimmed(light, cost as int));
    }
    d
}

/// Returns the cost of one step into a voxel of the given opacity.
pub fn cost_of_step(attenuation: u8, opacity: u8) -> (cost: u8)
    ensures
        cost == step_cost(attenuation, opacity),
{
    if attenuation > 255 - opacity {
        255
    } else {
        attenuation + opacity
    }
}

/// Returns `true` when no channel carries any light.
pub fn is_unlit(light: [u8; 3]) -> (unlit: bool)
    ensures
        unlit == is_dark(light),
        unlit == (light == dark()),
{
    proof {
        lemma_within_order(light, light, light);
    }
    light[0] == 0 && light[1] == 0 && light[2] == 0
}

/// Returns `true` when the two light values agree in every channel.
pub fn same_light(a: [u8; 3], b: [u8; 3]) -> (same: bool)
    ensures
        same == (a == b),
{
    let same = a[0] == b[0] && a[1] == b[1] && a[2] == b[2];
    proof {
        if same {
            lemma_same_channels(a, b);
        }
    }
    same
}

/// Returns `true` when `candidate` is brighter than `current` in at least
/// one channel.
pub fn outshines(candidate: [u8; 3], current: [u8; 3]) -> (better: bool)
    ensures
        better == !within(candidate, current),
{
    candidate[0] > current[0] || candidate[1] > current[1] || candidate[2] > current[2]
}

} // verus!
