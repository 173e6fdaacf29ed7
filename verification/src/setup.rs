//! One-time world construction: three static walls, one paddle, one ball
//! with its initial downward velocity, and the brick grid — five columns
//! spaced 130 apart, four rows spaced 20 apart, every brick at full health.
//!
//! The fixed timestep is one fiftieth of a second, so the ball's canonical
//! 200 units per second come to 4 units per tick — small against every
//! collider, so no canonical contact can be entered and left between two
//! consecutive ticks.

use vstd::prelude::*;
use crate::geom::{Shape, Vec2i};
use crate::store::{Entity, EntityId, EntityKind, Slot, Store};
use crate::sim::Sim;

verus! {

/// Simulation ticks per second of game time.
pub const TICKS_PER_SECOND: i64 = 50;

/// The ball's initial speed, straight down, in units per second.
pub const BALL_SPEED_PER_SECOND: i64 = 200;

/// The same speed expressed per tick: 200 units per second over 50 ticks
/// per second.
pub const BALL_SPEED_PER_TICK: i64 = 4;

/// Live bricks among the first `n` slots.
pub open spec fn brick_count(slots: Seq<Slot>, n: int) -> int
    decreases n,
{
    if n <= 0 {
        0
    } else {
        brick_count(slots, n - 1) + (if slots[n - 1].entity is Some && slots[n
            - 1].entity->Some_0.kind is Brick {
            1int
        } else {
            0int
        })
    }
}

impl Sim {
    /// Counts the bricks still standing.
    pub fn count_bricks(&self) -> (n: usize)
        ensures
            n as int == brick_count(self.store.slots@, self.store.slots@.len() as int),
    {
        let total = self.store.slots.len();
        let mut n: usize = 0;
        let mut i: usize = 0;
        while i < total
            invariant
                i <= total,
                total == self.store.slots@.len(),
                n <= i,
                n as int == brick_count(self.store.slots@, i as int),
            decreases total - i,
        {
            let slot = self.store.slots[i];
            if let Some(e) = slot.entity {
                match e.kind {
                    EntityKind::Brick => {
                        n += 1;
                    },
                    _ => {},
                }
            }
            i += 1;
        }
        n
    }
}

/// The canonical world, entity by entity: the top wall at (0, 250) with
/// half-extents (500, 5); the right and left walls at (±350, 0) with
/// half-extents (5, 500); the paddle at (0, −200), half-extents (50, 5),
/// speed 5 per tick; the ball at the origin, radius 5, falling straight
/// down; then the twenty bricks, column-major — column gx ∈ −2..2 at
/// x = 130·gx, row gy ∈ 0..3 at y = 20·gy + 100, half-extents (50, 5),
/// health 2.
pub open spec fn standard_entity(i: int) -> Entity {
    if i == 0 {
        Entity {
            kind: EntityKind::Wall,
            pos: Vec2i { x: 0, y: 250 },
            vel: Vec2i { x: 0, y: 0 },
            shape: Shape::Rect { half_w: 500, half_h: 5 },
            health: 0,
            speed: 0,
        }
    } else if i == 1 {
        Entity {
            kind: EntityKind::Wall,
            pos: Vec2i { x: 350, y: 0 },
            vel: Vec2i { x: 0, y: 0 },
            shape: Shape::Rect { half_w: 5, half_h: 500 },
            health: 0,
            speed: 0,
        }
    } else if i == 2 {
        Entity {
            kind: EntityKind::Wall,
            pos: Vec2i { x: (-350) as i64, y: 0 },
            vel: Vec2i { x: 0, y: 0 },
            shape: Shape::Rect { half_w: 5, half_h: 500 },
            health: 0,
            speed: 0,
        }
    } else if i == 3 {
        Entity {
            kind: EntityKind::Paddle,
            pos: Vec2i { x: 0, y: (-200) as i64 },
            vel: Vec2i { x: 0, y: 0 },
            shape: Shape::Rect { half_w: 50, half_h: 5 },
            health: 0,
            speed: 5,
        }
    } else if i == 4 {
        Entity {
            kind: EntityKind::Ball,
            pos: Vec2i { x: 0, y: 0 },
            vel: Vec2i { x: 0, y: (-BALL_SPEED_PER_TICK) as i64 },
            shape: Shape::Circle { radius: 5 },
            health: 0,
            speed: 2,
        }
    } else {
        let c = i - 5;
        let gx = c / 4 - 2;
        let gy = c % 4;
        Entity {
            kind: EntityKind::Brick,
            pos: Vec2i { x: (130 * gx) as i64, y: (20 * gy + 100) as i64 },
            vel: Vec2i { x: 0, y: 0 },
            shape: Shape::Rect { half_w: 50, half_h: 5 },
            health: 2,
            speed: 0,
        }
    }
}

pub open spec fn standard_slot(i: int) -> Slot {
    Slot { generation: 0, entity: Some(standard_entity(i)) }
}

/// The canonical world holds five non-bricks followed by twenty bricks.
pub proof fn lemma_standard_brick_count(slots: Seq<Slot>, n: int)
    requires
        0 <= n <= 25,
        forall|i: int| 0 <= i < n ==> slots[i] == #[trigger] standard_slot(i),
    ensures
        brick_count(slots, n) == (if n <= 5 {
            0int
        } else {
            n - 5
        }),
    decreases n,
{
    if n > 0 {
        lemma_standard_brick_count(slots, n - 1);
        assert(slots[n - 1] == standard_slot(n - 1));
    }
}

/// In the canonical world a rightward paddle move never passes the right
/// wall: from any reachable x, and however large the requested
/// displacement, the landing x stays at or left of 295 — the wall's inner
/// edge at 345 less the paddle's half-width of 50.
pub proof fn lemma_standard_paddle_right_bound(slots: Seq<Slot>, px: int, dx: int)
    requires
        slots.len() == 25,
        forall|i: int| 0 <= i < 25 ==> slots[i] == #[trigger] standard_slot(i),
        -295 <= px <= 295,
        dx > 0,
    ensures
        crate::sim::kin_target_x(slots, px, -200, 50, 5, dx) <= 295,
{
    assert(slots[1] == standard_slot(1));
    crate::sim::lemma_no_tunnel_right(slots, px, -200, 50, 5, dx, 1);
}

/// Builds the canonical starting world.  The contract pins the whole
/// store, slot by slot, to `standard_slot`: the three walls, the paddle,
/// the ball, and the twenty full-health bricks, nothing else.
pub fn standard_world() -> (sim: Sim)
    ensures
        sim.wf(),
        sim.store.slots@.len() == 25,
        forall|i: int| 0 <= i < 25 ==> sim.store.slots@[i] == #[trigger] standard_slot(i),
        sim.ball == (EntityId { index: 4, generation: 0 }),
        sim.paddle == (EntityId { index: 3, generation: 0 }),
        sim.store.ent(sim.ball) == standard_entity(4),
        sim.store.ent(sim.paddle) == standard_entity(3),
        brick_count(sim.store.slots@, 25) == 20,
        sim.contacts@.len() == 0,
        sim.last_dx == 0,
{
    let mut store = Store { slots: Vec::new() };
    let mut c: usize = 0;
    while c < 25
        invariant
            c <= 25,
            store.wf(),
            store.slots@.len() == c as int,
            forall|i: int| 0 <= i < c as int ==> store.slots@[i] == #[trigger] standard_slot(i),
        decreases 25 - c,
    {
        let e: Entity = if c == 0 {
            Entity {
                kind: EntityKind::Wall,
                pos: Vec2i { x: 0, y: 250 },
                vel: Vec2i { x: 0, y: 0 },
                shape: Shape::Rect { half_w: 500, half_h: 5 },
                health: 0,
                speed: 0,
            }
        } else if c == 1 {
            Entity {
                kind: EntityKind::Wall,
                pos: Vec2i { x: 350, y: 0 },
                vel: Vec2i { x: 0, y: 0 },
                shape: Shape::Rect { half_w: 5, half_h: 500 },
                health: 0,
                speed: 0,
            }
        } else if c == 2 {
            Entity {
                kind: EntityKind::Wall,
                pos: Vec2i { x: -350, y: 0 },
                vel: Vec2i { x: 0, y: 0 },
                shape: Shape::Rect { half_w: 5, half_h: 500 },
                health: 0,
                speed: 0,
            }
        } else if c == 3 {
            Entity {
                kind: EntityKind::Paddle,
                pos: Vec2i { x: 0, y: -200 },
                vel: Vec2i { x: 0, y: 0 },
                shape: Shape::Rect { half_w: 50, half_h: 5 },
                health: 0,
                speed: 5,
            }
        } else if c == 4 {
            Entity {
                kind: EntityKind::Ball,
                pos: Vec2i { x: 0, y: 0 },
                vel: Vec2i { x: 0, y: -BALL_SPEED_PER_TICK },
                shape: Shape::Circle { radius: 5 },
                health: 0,
                speed: 2,
            }
        } else {
            let cell = c - 5;
            let gx: i64 = (cell / 4) as i64 - 2;
            let gy: i64 = (cell % 4) as i64;
            Entity {
                kind: EntityKind::Brick,
                pos: Vec2i { x: 130 * gx, y: 20 * gy + 100 },
                vel: Vec2i { x: 0, y: 0 },
                shape: Shape::Rect { half_w: 50, half_h: 5 },
                health: 2,
                speed: 0,
            }
        };
        proof {
            assert(e == standard_entity(c as int));
        }
        let id = store.create(e);
        proof {
            if (id.index as int) < c as int {
                assert(store.slots@[id.index as int] == standard_slot(id.index as int));
                assert(false);
            }
        }
        c += 1;
    }
    let ball = EntityId { index: 4, generation: 0 };
    let paddle = EntityId { index: 3, generation: 0 };
    let sim = Sim { store, ball, paddle, contacts: Vec::new(), last_dx: 0 };
    proof {
        assert(sim.store.slots@[4] == standard_slot(4));
        assert(sim.store.slots@[3] == standard_slot(3));
        assert forall|j: EntityId|
            #[trigger] sim.store.alive(j) && sim.store.ent(j).kind is Ball implies j
            == sim.ball by {
            assert(sim.store.slots@[j.index as int] == standard_slot(j.index as int));
            assert(j.index == 4);
        }
        assert forall|j: EntityId|
            #[trigger] sim.store.alive(j) && sim.store.ent(j).kind is Paddle implies j
            == sim.paddle by {
            assert(sim.store.slots@[j.index as int] == standard_slot(j.index as int));
            assert(j.index == 3);
        }
        lemma_standard_brick_count(sim.store.slots@, 25);
    }
    sim
}

} // verus!
