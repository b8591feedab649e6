use diorama::world::World;

#[test]
fn new_world_is_empty() {
    let w = World::new();
    assert_eq!(w.len(), 0);
    assert_eq!(w.get(0, 0, 0), None);
    assert_eq!(w.min(), (i32::MAX, i32::MAX, i32::MAX));
    assert_eq!(w.max(), (i32::MIN, i32::MIN, i32::MIN));
}

#[test]
fn get_after_set_returns_material() {
    let mut w = World::new();
    w.set(1, 2, 3, 7);
    assert_eq!(w.get(1, 2, 3), Some(7));
    assert_eq!(w.get(3, 2, 1), None);
    assert_eq!(w.len(), 1);
}

#[test]
fn set_twice_replaces_and_keeps_len() {
    let mut w = World::new();
    w.set(-4, 0, 9, 2);
    w.set(-4, 0, 9, 5);
    assert_eq!(w.get(-4, 0, 9), Some(5));
    assert_eq!(w.len(), 1);
}

#[test]
fn bounds_grow_to_enclose_cells() {
    let mut w = World::new();
    w.set(2, 5, -1, 0);
    assert_eq!(w.min(), (2, 5, -1));
    assert_eq!(w.max(), (2, 5, -1));
    w.set(-3, 7, 4, 1);
    assert_eq!(w.min(), (-3, 5, -1));
    assert_eq!(w.max(), (2, 7, 4));
    assert_eq!(w.len(), 2);
}

#[test]
fn extreme_coordinates_are_distinct_cells() {
    let mut w = World::new();
    w.set(i32::MIN, i32::MAX, 0, 1);
    w.set(i32::MAX, i32::MIN, 0, 2);
    w.set(0, 0, i32::MIN, 3);
    w.set(0, 0, i32::MAX, 4);
    assert_eq!(w.len(), 4);
    assert_eq!(w.get(i32::MIN, i32::MAX, 0), Some(1));
    assert_eq!(w.get(i32::MAX, i32::MIN, 0), Some(2));
    assert_eq!(w.get(0, 0, i32::MIN), Some(3));
    assert_eq!(w.get(0, 0, i32::MAX), Some(4));
    assert_eq!(w.min(), (i32::MIN, i32::MIN, i32::MIN));
    assert_eq!(w.max(), (i32::MAX, i32::MAX, i32::MAX));
}
