//! Integer geometry: positions, velocities, axis-aligned shapes, and the
//! overlap test that drives collision detection.

use vstd::prelude::*;

verus! {

/// Every coordinate, velocity component and half-extent the simulation
/// stores is kept within this magnitude, so any sum of a few of them fits
/// comfortably in an `i64`.
pub const WORLD_LIMIT: i64 = 1_000_000_000_000;

/// A two-dimensional integer vector (position, velocity or displacement).
#[derive(Clone, Copy, PartialEq, Eq, Structural, Debug)]
pub struct Vec2i {
    pub x: i64,
    pub y: i64,
}

/// Collider shapes.  All shapes are axis-aligned; a circle collides through
/// its bounding box, which is exact for the axis-aligned contacts that occur
/// here.
#[derive(Clone, Copy, PartialEq, Eq, Structural, Debug)]
pub enum Shape {
    Circle { radius: i64 },
    Rect { half_w: i64, half_h: i64 },
}

pub open spec fn in_range(v: int) -> bool {
    -(WORLD_LIMIT as int) <= v <= WORLD_LIMIT as int
}

pub open spec fn vec2_in_range(v: Vec2i) -> bool {
    in_range(v.x as int) && in_range(v.y as int)
}

pub open spec fn half_w_of(s: Shape) -> int {
    match s {
        Shape::Circle { radius } => radius as int,
        Shape::Rect { half_w, half_h: _ } => half_w as int,
    }
}

pub open spec fn half_h_of(s: Shape) -> int {
    match s {
        Shape::Circle { radius } => radius as int,
        Shape::Rect { half_w: _, half_h } => half_h as int,
    }
}

pub open spec fn shape_in_range(s: Shape) -> bool {
    0 <= half_w_of(s) <= WORLD_LIMIT as int && 0 <= half_h_of(s) <= WORLD_LIMIT as int
}

pub open spec fn abs_int(v: int) -> int {
    if v < 0 {
        -v
    } else {
        v
    }
}

/// Result of adding `v` once the world boundary clamp is applied.
pub open spec fn clip_spec(v: int) -> int {
    if v > WORLD_LIMIT as int {
        WORLD_LIMIT as int
    } else if v < -(WORLD_LIMIT as int) {
        -(WORLD_LIMIT as int)
    } else {
        v
    }
}

/// Adds two in-range components, clamping the result to the world boundary.
pub fn clip_add(a: i64, b: i64) -> (r: i64)
    requires
        in_range(a as int),
        in_range(b as int),
    ensures
        r as int == clip_spec(a + b),
        in_range(r as int),
{
    let s = a + b;
    if s > WORLD_LIMIT {
        WORLD_LIMIT
    } else if s < -WORLD_LIMIT {
        -WORLD_LIMIT
    } else {
        s
    }
}

pub fn shape_half_w(s: &Shape) -> (r: i64)
    ensures
        r as int == half_w_of(*s),
{
    match s {
        Shape::Circle { radius } => *radius,
        Shape::Rect { half_w, half_h: _ } => *half_w,
    }
}

pub fn shape_half_h(s: &Shape) -> (r: i64)
    ensures
        r as int == half_h_of(*s),
{
    match s {
        Shape::Circle { radius } => *radius,
        Shape::Rect { half_w: _, half_h } => *half_h,
    }
}

/// Absolute value of a difference of in-range components.
pub fn abs_i64(v: i64) -> (r: i64)
    requires
        -2 * (WORLD_LIMIT as int) <= v <= 2 * (WORLD_LIMIT as int),
    ensures
        r as int == abs_int(v as int),
{
    if v < 0 {
        -v
    } else {
        v
    }
}

/// Components of equal magnitude have equal squares.
pub proof fn lemma_square_of_abs(a: int, b: int)
    requires
        abs_int(a) == abs_int(b),
    ensures
        a * a == b * b,
{
    assert(a == b || a == -b);
    assert(a * a == b * b) by (nonlinear_arith)
        requires
            a == b || a == -b,
    ;
}

/// Two centered spans overlap when their centers are closer than the sum of
/// their half-lengths; spans that merely touch do not overlap.
pub open spec fn spans_overlap(c1: int, h1: int, c2: int, h2: int) -> bool {
    c1 - c2 < h1 + h2 && c2 - c1 < h1 + h2
}

/// Two placed shapes overlap exactly when both their horizontal and their
/// vertical spans overlap.
pub open spec fn boxes_overlap(p1: Vec2i, s1: Shape, p2: Vec2i, s2: Shape) -> bool {
    spans_overlap(p1.x as int, half_w_of(s1), p2.x as int, half_w_of(s2))
        && spans_overlap(p1.y as int, half_h_of(s1), p2.y as int, half_h_of(s2))
}

pub fn overlap(p1: &Vec2i, s1: &Shape, p2: &Vec2i, s2: &Shape) -> (r: bool)
    requires
        vec2_in_range(*p1),
        vec2_in_range(*p2),
        shape_in_range(*s1),
        shape_in_range(*s2),
    ensures
        r == boxes_overlap(*p1, *s1, *p2, *s2),
{
    let w1 = shape_half_w(s1);
    let h1 = shape_half_h(s1);
    let w2 = shape_half_w(s2);
    let h2 = shape_half_h(s2);
    p1.x - p2.x < w1 + w2 && p2.x - p1.x < w1 + w2 && p1.y - p2.y < h1 + h2 && p2.y - p1.y < h1
        + h2
}

} // verus!
