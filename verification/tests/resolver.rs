use breakout_core::events::{ContactEvent, ContactKind};
use breakout_core::geom::{Shape, Vec2i};
use breakout_core::resolver::{apply_contact_events, collect_destroyed};
use breakout_core::store::{Entity, EntityId, EntityKind, Store};

fn brick() -> Entity {
    Entity {
        kind: EntityKind::Brick,
        pos: Vec2i { x: 0, y: 100 },
        vel: Vec2i { x: 0, y: 0 },
        shape: Shape::Rect { half_w: 50, half_h: 5 },
        health: 2,
        speed: 0,
    }
}

fn ball() -> Entity {
    Entity {
        kind: EntityKind::Ball,
        pos: Vec2i { x: 0, y: 0 },
        vel: Vec2i { x: 0, y: -200 },
        shape: Shape::Circle { radius: 5 },
        health: 0,
        speed: 2,
    }
}

fn stopped(a: EntityId, b: EntityId) -> ContactEvent {
    ContactEvent { kind: ContactKind::Stopped, a, b }
}

#[test]
fn contact_begin_carries_no_damage() {
    let mut store = Store { slots: Vec::new() };
    let ball_id = store.create(ball());
    let brick_id = store.create(brick());
    let events = vec![ContactEvent { kind: ContactKind::Started, a: ball_id, b: brick_id }];
    apply_contact_events(&mut store, &events);
    assert_eq!(store.get(brick_id).unwrap().health, 2);
}

#[test]
fn contact_end_damages_exactly_once() {
    let mut store = Store { slots: Vec::new() };
    let ball_id = store.create(ball());
    let brick_id = store.create(brick());
    let events = vec![stopped(ball_id, brick_id)];
    apply_contact_events(&mut store, &events);
    assert_eq!(store.get(brick_id).unwrap().health, 1);
    apply_contact_events(&mut store, &events);
    assert_eq!(store.get(brick_id).unwrap().health, 0);
    let marked = collect_destroyed(&store);
    assert_eq!(marked, vec![brick_id]);
}

#[test]
fn both_named_bricks_lose_health_independently() {
    let mut store = Store { slots: Vec::new() };
    let a = store.create(brick());
    let b = store.create(brick());
    let events = vec![stopped(a, b)];
    apply_contact_events(&mut store, &events);
    assert_eq!(store.get(a).unwrap().health, 1);
    assert_eq!(store.get(b).unwrap().health, 1);
}

#[test]
fn event_naming_a_destroyed_id_is_a_no_op() {
    let mut store = Store { slots: Vec::new() };
    let ball_id = store.create(ball());
    let brick_id = store.create(brick());
    store.destroy(brick_id);
    let snapshot = store.clone();
    let events = vec![stopped(ball_id, brick_id)];
    apply_contact_events(&mut store, &events);
    assert_eq!(store, snapshot);
}

#[test]
fn health_bottoms_out_at_zero() {
    let mut store = Store { slots: Vec::new() };
    let ball_id = store.create(ball());
    let brick_id = store.create(brick());
    let events = vec![
        stopped(ball_id, brick_id),
        stopped(ball_id, brick_id),
        stopped(ball_id, brick_id),
    ];
    apply_contact_events(&mut store, &events);
    assert_eq!(store.get(brick_id).unwrap().health, 0);
}

#[test]
fn non_bricks_never_take_damage() {
    let mut store = Store { slots: Vec::new() };
    let ball_id = store.create(ball());
    let wall_id = store.create(Entity {
        kind: EntityKind::Wall,
        pos: Vec2i { x: 0, y: 250 },
        vel: Vec2i { x: 0, y: 0 },
        shape: Shape::Rect { half_w: 500, half_h: 5 },
        health: 0,
        speed: 0,
    });
    let snapshot = store.clone();
    let events = vec![stopped(ball_id, wall_id)];
    apply_contact_events(&mut store, &events);
    assert_eq!(store, snapshot);
    assert!(collect_destroyed(&store).is_empty());
}
