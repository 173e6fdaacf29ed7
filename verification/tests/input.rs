use breakout_core::input::{read_input, resolve, LogicalInput};

#[test]
fn right_takes_precedence_over_left() {
    assert_eq!(read_input(true, true), LogicalInput::Right);
}

#[test]
fn single_keys_map_directly() {
    assert_eq!(read_input(true, false), LogicalInput::Left);
    assert_eq!(read_input(false, true), LogicalInput::Right);
    assert_eq!(read_input(false, false), LogicalInput::Idle);
}

#[test]
fn resolve_maps_to_displacements() {
    let r = resolve(LogicalInput::Right, 5);
    assert_eq!((r.x, r.y), (5, 0));
    let l = resolve(LogicalInput::Left, 5);
    assert_eq!((l.x, l.y), (-5, 0));
    let i = resolve(LogicalInput::Idle, 5);
    assert_eq!((i.x, i.y), (0, 0));
}
