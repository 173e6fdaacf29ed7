//! The input controller: turns the per-frame logical input signal into a
//! paddle displacement command.  It holds no state and runs once per tick,
//! before the physics step.

use vstd::prelude::*;
use crate::geom::{Vec2i, WORLD_LIMIT, in_range, vec2_in_range};

verus! {

/// The logical input for one frame.
#[derive(Clone, Copy, PartialEq, Eq, Structural, Debug)]
pub enum LogicalInput {
    Left,
    Right,
    Idle,
}

pub open spec fn displacement_spec(input: LogicalInput, speed: int) -> int {
    match input {
        LogicalInput::Right => speed,
        LogicalInput::Left => -speed,
        LogicalInput::Idle => 0,
    }
}

/// Collapses raw key state into the logical signal.  When both keys are
/// held, Right takes precedence.
pub fn read_input(left_held: bool, right_held: bool) -> (r: LogicalInput)
    ensures
        right_held ==> r == LogicalInput::Right,
        !right_held && left_held ==> r == LogicalInput::Left,
        !right_held && !left_held ==> r == LogicalInput::Idle,
{
    if right_held {
        LogicalInput::Right
    } else if left_held {
        LogicalInput::Left
    } else {
        LogicalInput::Idle
    }
}

/// Maps the logical signal to a displacement: `(+speed, 0)` for Right,
/// `(-speed, 0)` for Left, `(0, 0)` for Idle.
pub fn resolve(input: LogicalInput, speed: i64) -> (d: Vec2i)
    requires
        0 <= speed <= WORLD_LIMIT,
    ensures
        d.x as int == displacement_spec(input, speed as int),
        d.y == 0,
        vec2_in_range(d),
{
    match input {
        LogicalInput::Right => Vec2i { x: speed, y: 0 },
        LogicalInput::Left => Vec2i { x: -speed, y: 0 },
        LogicalInput::Idle => Vec2i { x: 0, y: 0 },
    }
}

} // verus!
