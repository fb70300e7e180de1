//! Fixed-point units of the chart, and the radius of each ring.
//!
//! Every quantity of the chart is an integer, so that a layout is exact and
//! the same on every machine. Angles count in `1 / ANGLE_ONE` of a radian,
//! radii in `1 / RADIUS_ONE` of the unit radius, and lengths on screen in
//! `1 / PIXEL` of a pixel; a scale is the length on screen of the unit radius.

use vstd::prelude::*;
use vstd::arithmetic::power::{lemma_pow_positive, pow};

verus! {

/// Angle units in one radian.
pub const ANGLE_ONE: u64 = 0x1_0000_0000;

/// Half a turn: pi radians, rounded down to a whole angle unit.
pub const HALF_TURN: u64 = 13493037704;

/// A whole turn: two pi radians, rounded down to a whole angle unit.
pub const FULL_TURN: u64 = 26986075409;

/// Radius units in the unit radius.
pub const RADIUS_ONE: u64 = 0x1_0000_0000;

/// The number of unit radii that the rings converge to.
pub const RING_LIMIT: u64 = 5;

/// The radius that the rings converge to, and at which every file is drawn.
pub const OUTER_RADIUS: u64 = 21474836480;

/// Length units in one pixel.
pub const PIXEL: u64 = 0x1_0000;

/// What is left between the ring of a directory at `depth` and the outer
/// radius. Every further level uses up one part in `RING_LIMIT` of it, which
/// leaves four fifths.
pub open spec fn ring_gap(depth: nat) -> nat
    decreases depth,
{
    if depth == 0 {
        OUTER_RADIUS as nat
    } else {
        ring_gap((depth - 1) as nat) * 4 / 5
    }
}

/// The radius of the ring of a directory at `depth`:
/// `RING_LIMIT - RING_LIMIT * ((RING_LIMIT - 1) / RING_LIMIT) ^ depth` unit
/// radii, where each of the `depth` steps rounds the remaining gap down.
pub open spec fn ring_radius(depth: nat) -> nat {
    (OUTER_RADIUS - ring_gap(depth)) as nat
}

/// The depth one level further down. Depths are labels that stop counting at
/// `u32::MAX`.
pub open spec fn next_depth(depth: u32) -> u32 {
    if depth < u32::MAX {
        (depth + 1) as u32
    } else {
        depth
    }
}

/// The radius up to which the ring of the parent covers a node at `depth`.
pub open spec fn inner_radius(depth: nat) -> nat {
    if depth == 0 {
        0
    } else {
        ring_radius((depth - 1) as nat)
    }
}

/// Whether an arc of `span` angle units at the outer radius is at least one
/// pixel long on a screen where the unit radius measures `scale`.
pub open spec fn wide_enough(span: int, scale: int) -> bool {
    span * scale * RING_LIMIT >= ANGLE_ONE * PIXEL
}

/// The gap never grows with the depth, and never exceeds the outer radius.
pub proof fn lemma_ring_gap_monotonic(shallow: nat, deep: nat)
    requires
        shallow <= deep,
    ensures
        ring_gap(deep) <= ring_gap(shallow) <= OUTER_RADIUS,
    decreases deep,
{
    if deep == 0 {
    } else if shallow == deep {
        lemma_ring_gap_monotonic(0, (deep - 1) as nat);
    } else {
        lemma_ring_gap_monotonic(shallow, (deep - 1) as nat);
    }
}

/// The gap at `depth` is what is left of the outer radius after `depth`
/// times four fifths, less than five radius units short: so close is
/// `ring_radius(depth)` to `RING_LIMIT - RING_LIMIT * (4 / 5) ^ depth` unit
/// radii.
pub proof fn lemma_ring_gap_follows_formula(depth: nat)
    ensures
        ring_gap(depth) * pow(5, depth) <= OUTER_RADIUS * pow(4, depth),
        OUTER_RADIUS * pow(4, depth) < (ring_gap(depth) + 5) * pow(5, depth),
    decreases depth,
{
    reveal(pow);
    if depth > 0 {
        let before = (depth - 1) as nat;
        lemma_ring_gap_follows_formula(before);
        lemma_pow_positive(5, before);
        lemma_pow_positive(4, before);
        let gap = ring_gap(before) as int;
        let next = ring_gap(depth) as int;
        let fives = pow(5, before);
        let fours = pow(4, before);
        let outer = OUTER_RADIUS as int;
        assert(5 * next <= 4 * gap < 5 * next + 5);
        assert(next * (5 * fives) <= outer * (4 * fours)) by (nonlinear_arith)
            requires
                5 * next <= 4 * gap,
                gap * fives <= outer * fours,
                fives > 0,
                fours > 0,
                next >= 0,
        ;
        assert(outer * (4 * fours) < (next + 5) * (5 * fives)) by (nonlinear_arith)
            requires
                4 * gap < 5 * next + 5,
                outer * fours < (gap + 5) * fives,
                fives > 0,
                fours > 0,
        ;
    }
}

/// Rings lie further out the deeper they are, and all within the outer
/// radius.
pub proof fn lemma_ring_radius_monotonic(shallow: nat, deep: nat)
    requires
        shallow <= deep,
    ensures
        ring_radius(shallow) <= ring_radius(deep) <= OUTER_RADIUS,
{
    lemma_ring_gap_monotonic(shallow, deep);
    lemma_ring_gap_monotonic(0, shallow);
}

/// The radius of the ring of a directory at `depth`.
pub fn ring_radius_at(depth: u32) -> (radius: u64)
    ensures
        radius == ring_radius(depth as nat),
        radius <= OUTER_RADIUS,
{
    let mut gap: u64 = OUTER_RADIUS;
    let mut level: u32 = 0;
    while level < depth && gap > 0
        invariant
            level <= depth,
            gap == ring_gap(level as nat),
            gap <= OUTER_RADIUS,
        decreases depth - level,
    {
        gap = gap * 4 / 5;
        level = level + 1;
    }
    proof {
        lemma_ring_gap_monotonic(level as nat, depth as nat);
    }
    OUTER_RADIUS - gap
}

/// The radius up to which the ring of the parent covers a node at `depth`.
pub fn inner_radius_at(depth: u32) -> (radius: u64)
    ensures
        radius == inner_radius(depth as nat),
        radius <= OUTER_RADIUS,
{
    if depth == 0 {
        0
    } else {
        ring_radius_at(depth - 1)
    }
}

/// The depth one level further down.
pub fn depth_below(depth: u32) -> (deeper: u32)
    ensures
        deeper == next_depth(depth),
{
    if depth < u32::MAX {
        depth + 1
    } else {
        depth
    }
}

/// Whether an arc of `span` angle units is worth a pixel at `scale`.
pub fn is_wide_enough(span: u64, scale: u64) -> (wide: bool)
    ensures
        wide == wide_enough(span as int, scale as int),
{
    assert(span * scale <= 0xffff_ffff_ffff_ffff * 0xffff_ffff_ffff_ffff) by (nonlinear_arith)
        requires
            span <= 0xffff_ffff_ffff_ffff,
            scale <= 0xffff_ffff_ffff_ffff,
    ;
    let product: u128 = span as u128 * scale as u128;
    product >= 56294995342132
}

} // verus!
