use breakout_core::events::{ContactEvent, ContactKind};
use breakout_core::geom::{Shape, Vec2i};
use breakout_core::input::LogicalInput;
use breakout_core::resolver::apply_contact_events;
use breakout_core::resolver::collect_destroyed;
use breakout_core::setup::{standard_world, BALL_SPEED_PER_SECOND, BALL_SPEED_PER_TICK, TICKS_PER_SECOND};
use breakout_core::sim::Sim;
use breakout_core::store::{Entity, EntityId, EntityKind, Store};

fn rect(kind: EntityKind, x: i64, y: i64, half_w: i64, half_h: i64, health: i64, speed: i64) -> Entity {
    Entity {
        kind,
        pos: Vec2i { x, y },
        vel: Vec2i { x: 0, y: 0 },
        shape: Shape::Rect { half_w, half_h },
        health,
        speed,
    }
}

/// A paddle far below, one brick, the ball above it; no walls.
fn one_brick_world(ball_pos: Vec2i, ball_vel: Vec2i) -> (Sim, EntityId) {
    let mut store = Store { slots: Vec::new() };
    let paddle = store.create(rect(EntityKind::Paddle, 0, -300, 50, 5, 0, 5));
    let brick = store.create(rect(EntityKind::Brick, 0, -20, 50, 5, 2, 0));
    let ball = store.create(Entity {
        kind: EntityKind::Ball,
        pos: ball_pos,
        vel: ball_vel,
        shape: Shape::Circle { radius: 5 },
        health: 0,
        speed: 2,
    });
    (Sim { store, ball, paddle, contacts: Vec::new(), last_dx: 0 }, brick)
}

fn brick_ids(sim: &Sim) -> Vec<EntityId> {
    let mut out = Vec::new();
    for (i, slot) in sim.store.slots.iter().enumerate() {
        if let Some(e) = slot.entity {
            if e.kind == EntityKind::Brick {
                out.push(EntityId { index: i, generation: slot.generation });
            }
        }
    }
    out
}

#[test]
fn damage_lands_on_separation_not_on_touch() {
    let (mut sim, brick) = one_brick_world(Vec2i { x: 0, y: -15 }, Vec2i { x: 0, y: -3 });
    // tick 1: the ball enters the brick; a contact begins, no damage yet
    let ev1 = sim.tick(LogicalInput::Idle);
    assert!(ev1.iter().any(|e| e.kind == ContactKind::Started && e.b == brick));
    assert_eq!(sim.store.get(brick).unwrap().health, 2);
    // ticks 2 and 3: still overlapping on the way out; no transition, no damage
    for _ in 0..2 {
        let ev = sim.tick(LogicalInput::Idle);
        assert!(ev.is_empty());
        assert_eq!(sim.store.get(brick).unwrap().health, 2);
    }
    // tick 4: separation; health drops by exactly one, exactly now
    let ev4 = sim.tick(LogicalInput::Idle);
    assert!(ev4.iter().any(|e| e.kind == ContactKind::Stopped && e.b == brick));
    assert_eq!(sim.store.get(brick).unwrap().health, 1);
}

#[test]
fn elastic_bounce_conserves_speed() {
    let (mut sim, brick) = one_brick_world(Vec2i { x: 0, y: -15 }, Vec2i { x: 4, y: -3 });
    let ev = sim.tick(LogicalInput::Idle);
    assert!(ev.iter().any(|e| e.kind == ContactKind::Started && e.b == brick));
    let v = sim.store.get(sim.ball).unwrap().vel;
    // the bounce flipped the vertical component and nothing else
    assert_eq!((v.x, v.y), (4, 3));
    assert_eq!(v.x * v.x + v.y * v.y, 25);
}

#[test]
fn paddle_bound_scenario() {
    // right wall x-range starts at 345; the paddle (half-width 50) stops at 295
    let mut sim = standard_world();
    let limit = 295;
    for t in 1..=100i64 {
        sim.tick(LogicalInput::Right);
        let x = sim.store.get(sim.paddle).unwrap().pos.x;
        assert_eq!(x, (5 * t).min(limit));
        assert!(x <= limit);
    }
    assert_eq!(sim.store.get(sim.paddle).unwrap().pos.x, limit);
}

#[test]
fn paddle_moves_left_until_the_left_wall() {
    let mut sim = standard_world();
    for _ in 0..100 {
        sim.tick(LogicalInput::Left);
    }
    assert_eq!(sim.store.get(sim.paddle).unwrap().pos.x, -295);
}

#[test]
fn full_clear_scenario() {
    let mut sim = standard_world();
    assert_eq!(sim.count_bricks(), 20);
    let bricks = brick_ids(&sim);
    assert_eq!(bricks.len(), 20);
    // two separate separation events per brick
    for _ in 0..2 {
        let events: Vec<ContactEvent> = bricks
            .iter()
            .map(|&b| ContactEvent { kind: ContactKind::Stopped, a: sim.ball, b })
            .collect();
        apply_contact_events(&mut sim.store, &events);
    }
    let marked = collect_destroyed(&sim.store);
    assert_eq!(marked.len(), 20);
    sim.sweep(&marked);
    assert_eq!(sim.count_bricks(), 0);
    for b in &bricks {
        assert!(sim.store.get(*b).is_none());
    }
    // a sweep over an empty destruction set is harmless
    let empty: Vec<EntityId> = Vec::new();
    sim.sweep(&empty);
    assert_eq!(sim.count_bricks(), 0);
    assert!(sim.store.get(sim.ball).is_some());
    assert!(sim.store.get(sim.paddle).is_some());
}

#[test]
fn destroyed_brick_is_never_reported_again() {
    let mut sim = standard_world();
    let victim = brick_ids(&sim)[0];
    let events = vec![
        ContactEvent { kind: ContactKind::Stopped, a: sim.ball, b: victim },
        ContactEvent { kind: ContactKind::Stopped, a: sim.ball, b: victim },
    ];
    apply_contact_events(&mut sim.store, &events);
    let marked = collect_destroyed(&sim.store);
    sim.sweep(&marked);
    assert!(sim.store.get(victim).is_none());
    for t in 0..100 {
        let input = if t % 2 == 0 { LogicalInput::Right } else { LogicalInput::Left };
        let events = sim.tick(input);
        for ev in &events {
            assert_ne!(ev.a, victim);
            assert_ne!(ev.b, victim);
        }
        assert!(sim.store.get(victim).is_none());
    }
}

#[test]
fn health_is_monotonic_over_a_long_run() {
    // a compact box so the slow ball keeps bouncing among the bricks
    let mut store = Store { slots: Vec::new() };
    store.create(rect(EntityKind::Wall, 0, 60, 60, 5, 0, 0));
    store.create(rect(EntityKind::Wall, -60, 0, 5, 60, 0, 0));
    store.create(rect(EntityKind::Wall, 60, 0, 5, 60, 0, 0));
    store.create(rect(EntityKind::Brick, -20, 30, 10, 5, 2, 0));
    store.create(rect(EntityKind::Brick, 20, 30, 10, 5, 2, 0));
    store.create(rect(EntityKind::Brick, 0, 40, 10, 5, 2, 0));
    let paddle = store.create(rect(EntityKind::Paddle, 0, -60, 20, 5, 0, 5));
    let ball = store.create(Entity {
        kind: EntityKind::Ball,
        pos: Vec2i { x: 0, y: 0 },
        vel: Vec2i { x: 3, y: 7 },
        shape: Shape::Circle { radius: 5 },
        health: 0,
        speed: 2,
    });
    let mut sim = Sim { store, ball, paddle, contacts: Vec::new(), last_dx: 0 };
    let mut last_health: Vec<(EntityId, i64)> = brick_ids(&sim)
        .into_iter()
        .map(|b| (b, sim.store.get(b).unwrap().health))
        .collect();
    for t in 0..400 {
        let input = if t % 3 == 0 { LogicalInput::Right } else { LogicalInput::Left };
        sim.tick(input);
        for (b, h) in last_health.iter_mut() {
            match sim.store.get(*b) {
                Some(e) => {
                    assert!(e.health <= *h, "brick health must never increase");
                    assert!(e.health >= 0, "brick health must never be negative");
                    *h = e.health;
                }
                None => {
                    // destroyed: record as gone for the rest of the run
                    *h = -1;
                    assert!(sim.store.get(*b).is_none());
                }
            }
            if *h == -1 {
                assert!(sim.store.get(*b).is_none(), "a destroyed brick must stay destroyed");
            }
        }
    }
}

#[test]
fn ball_position_integrates_by_velocity() {
    let (mut sim, _brick) = one_brick_world(Vec2i { x: 7, y: 90 }, Vec2i { x: 11, y: -13 });
    sim.tick(LogicalInput::Idle);
    let b = sim.store.get(sim.ball).unwrap();
    assert_eq!((b.pos.x, b.pos.y), (18, 77));
}

#[test]
fn canonical_ball_damages_the_center_brick_on_separation() {
    let mut sim = standard_world();
    // the brick directly above the ball's starting point
    let center = brick_ids(&sim)
        .into_iter()
        .find(|b| {
            let e = sim.store.get(*b).unwrap();
            e.pos.x == 0 && e.pos.y == 100
        })
        .expect("the canonical grid has a brick at (0, 100)");
    for _ in 0..200 {
        sim.tick(LogicalInput::Idle);
    }
    // by now the ball has bounced off the paddle, struck the brick once
    // and separated: exactly one health point gone, nothing destroyed
    assert_eq!(sim.store.get(center).unwrap().health, 1);
    assert_eq!(sim.count_bricks(), 20);
    for _ in 200..300 {
        sim.tick(LogicalInput::Idle);
    }
    // the second strike finished it
    assert!(sim.store.get(center).is_none());
    assert_eq!(sim.count_bricks(), 19);
}

#[test]
fn canonical_ball_speed_matches_the_timestep() {
    let sim = standard_world();
    let v = sim.store.get(sim.ball).unwrap().vel;
    assert_eq!((v.x, v.y), (0, -BALL_SPEED_PER_TICK));
    assert_eq!(BALL_SPEED_PER_TICK * TICKS_PER_SECOND, BALL_SPEED_PER_SECOND);
}

#[test]
fn wall_bounce_reverses_course_and_conserves_speed() {
    let mut store = Store { slots: Vec::new() };
    store.create(rect(EntityKind::Wall, 60, 0, 5, 60, 0, 0));
    let paddle = store.create(rect(EntityKind::Paddle, 0, -100, 20, 5, 0, 5));
    let ball = store.create(Entity {
        kind: EntityKind::Ball,
        pos: Vec2i { x: 50, y: 0 },
        vel: Vec2i { x: 4, y: 0 },
        shape: Shape::Circle { radius: 5 },
        health: 0,
        speed: 2,
    });
    let mut sim = Sim { store, ball, paddle, contacts: Vec::new(), last_dx: 0 };
    let ev = sim.tick(LogicalInput::Idle);
    assert!(ev.iter().any(|e| e.kind == ContactKind::Started));
    let v = sim.store.get(sim.ball).unwrap().vel;
    assert_eq!((v.x, v.y), (-4, 0));
    assert_eq!(v.x * v.x + v.y * v.y, 16);
}

#[test]
fn moving_paddle_imparts_lateral_spin() {
    let mut store = Store { slots: Vec::new() };
    let paddle = store.create(rect(EntityKind::Paddle, 0, -30, 50, 5, 0, 5));
    let ball = store.create(Entity {
        kind: EntityKind::Ball,
        pos: Vec2i { x: 0, y: -15 },
        vel: Vec2i { x: 0, y: -6 },
        shape: Shape::Circle { radius: 5 },
        health: 0,
        speed: 2,
    });
    let mut sim = Sim { store, ball, paddle, contacts: Vec::new(), last_dx: 0 };
    // the paddle moves right by its speed this tick, then the falling ball
    // lands on it: the bounce reflects vertically and the paddle's motion
    // carries over into the ball's lateral velocity
    let ev = sim.tick(LogicalInput::Right);
    assert!(ev.iter().any(|e| e.kind == ContactKind::Started && e.b == sim.paddle));
    let v = sim.store.get(sim.ball).unwrap().vel;
    assert_eq!((v.x, v.y), (5, 6));
}

#[test]
fn kinematic_move_on_destroyed_id_is_a_no_op() {
    let (mut sim, brick) = one_brick_world(Vec2i { x: 0, y: 200 }, Vec2i { x: 0, y: 0 });
    sim.destroy_entity(brick);
    let slots_before = sim.store.slots.clone();
    sim.apply_kinematic_delta(brick, Vec2i { x: 10, y: 0 });
    assert_eq!(sim.store.slots, slots_before);
}

#[test]
fn kinematic_move_shifts_a_brick() {
    let (mut sim, brick) = one_brick_world(Vec2i { x: 0, y: 200 }, Vec2i { x: 0, y: 0 });
    sim.apply_kinematic_delta(brick, Vec2i { x: 15, y: -5 });
    let e = sim.store.get(brick).unwrap();
    assert_eq!((e.pos.x, e.pos.y), (15, -25));
}
