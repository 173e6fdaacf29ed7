use breakout_core::geom::{Shape, Vec2i};
use breakout_core::store::{Entity, EntityKind, Store};

fn brick_at(x: i64, y: i64) -> Entity {
    Entity {
        kind: EntityKind::Brick,
        pos: Vec2i { x, y },
        vel: Vec2i { x: 0, y: 0 },
        shape: Shape::Rect { half_w: 50, half_h: 5 },
        health: 2,
        speed: 0,
    }
}

#[test]
fn create_then_get_returns_the_entity() {
    let mut store = Store { slots: Vec::new() };
    let id = store.create(brick_at(10, 20));
    let e = store.get(id).expect("freshly created id must be live");
    assert_eq!(e.pos, Vec2i { x: 10, y: 20 });
    assert_eq!(e.health, 2);
}

#[test]
fn destroyed_id_reads_none() {
    let mut store = Store { slots: Vec::new() };
    let id = store.create(brick_at(0, 0));
    store.destroy(id);
    assert!(store.get(id).is_none());
}

#[test]
fn destroy_twice_equals_destroy_once() {
    let mut store = Store { slots: Vec::new() };
    let keep = store.create(brick_at(0, 0));
    let id = store.create(brick_at(130, 0));
    store.destroy(id);
    let after_one = store.clone();
    store.destroy(id);
    assert_eq!(store, after_one);
    assert!(store.get(keep).is_some());
}

#[test]
fn freed_slot_is_reused_under_a_new_generation() {
    let mut store = Store { slots: Vec::new() };
    let a = store.create(brick_at(0, 0));
    store.destroy(a);
    let b = store.create(brick_at(130, 0));
    assert_eq!(b.index, a.index);
    assert_eq!(b.generation, a.generation + 1);
    // the old id stays dead even though its slot is occupied again
    assert!(store.get(a).is_none());
    assert!(store.get(b).is_some());
}
