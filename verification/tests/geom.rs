use breakout_core::geom::{clip_add, overlap, Shape, Vec2i, WORLD_LIMIT};

#[test]
fn touching_shapes_do_not_overlap() {
    // two unit-spaced rectangles whose edges exactly meet
    let a = Vec2i { x: 0, y: 0 };
    let b = Vec2i { x: 20, y: 0 };
    let r = Shape::Rect { half_w: 10, half_h: 5 };
    assert!(!overlap(&a, &r, &b, &r));
}

#[test]
fn interpenetrating_shapes_overlap() {
    let a = Vec2i { x: 0, y: 0 };
    let b = Vec2i { x: 19, y: 0 };
    let r = Shape::Rect { half_w: 10, half_h: 5 };
    assert!(overlap(&a, &r, &b, &r));
}

#[test]
fn circle_collides_through_its_bounding_box() {
    let c = Vec2i { x: 0, y: 0 };
    let circle = Shape::Circle { radius: 5 };
    let below = Vec2i { x: 0, y: -9 };
    let r = Shape::Rect { half_w: 50, half_h: 5 };
    assert!(overlap(&c, &circle, &below, &r));
    let apart = Vec2i { x: 0, y: -10 };
    assert!(!overlap(&c, &circle, &apart, &r));
}

#[test]
fn clip_add_saturates_at_the_world_boundary() {
    assert_eq!(clip_add(3, 4), 7);
    assert_eq!(clip_add(WORLD_LIMIT, 1), WORLD_LIMIT);
    assert_eq!(clip_add(-WORLD_LIMIT, -1), -WORLD_LIMIT);
}
