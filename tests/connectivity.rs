use rusty_simulator::connection_logic::{detect_collisions, group_connected_pins};
use rusty_simulator::structure::{Hitbox, HitboxType, Rect};

fn pin(x: i64, y: i64, w: i64, h: i64, n: usize) -> Hitbox {
    Hitbox { rect: Rect { x, y, w, h }, kind: HitboxType::Pin(n, 1, 1) }
}

fn wire(x: i64, y: i64, w: i64, h: i64) -> Hitbox {
    Hitbox { rect: Rect { x, y, w, h }, kind: HitboxType::Wire }
}

fn sorted(mut v: Vec<(usize, usize)>) -> Vec<(usize, usize)> {
    v.sort();
    v
}

#[test]
fn pins_overlapping_by_one_unit_share_a_net() {
    let hb = vec![pin(0, 0, 5, 5, 1), pin(4, 4, 5, 5, 2)];
    assert_eq!(detect_collisions(&hb, 50), vec![(0, 1)]);
    let groups = group_connected_pins(&hb, 50);
    assert_eq!(groups, vec![vec![0, 1]]);
}

#[test]
fn pins_apart_are_never_grouped() {
    let hb = vec![pin(0, 0, 5, 5, 1), pin(10, 10, 5, 5, 2)];
    assert!(detect_collisions(&hb, 50).is_empty());
    let groups = group_connected_pins(&hb, 50);
    assert_eq!(groups, vec![vec![0], vec![1]]);
}

#[test]
fn overlap_across_a_cell_boundary_is_found() {
    let hb = vec![pin(45, 45, 5, 5, 1), pin(49, 49, 5, 5, 2), pin(-3, -3, 5, 5, 3), pin(1, 1, 2, 2, 4)];
    assert_eq!(sorted(detect_collisions(&hb, 50)), vec![(0, 1), (2, 3)]);
    assert_eq!(sorted(detect_collisions(&hb, 1)), vec![(0, 1), (2, 3)]);
}

#[test]
fn wires_join_pins_transitively_and_wire_only_groups_vanish() {
    let hb = vec![
        pin(0, 0, 5, 5, 1),
        wire(3, 1, 100, 2),
        wire(100, 0, 2, 100),
        pin(99, 98, 5, 5, 2),
        pin(500, 500, 5, 5, 3),
        wire(900, 900, 10, 10),
    ];
    let groups = group_connected_pins(&hb, 50);
    assert_eq!(groups, vec![vec![0, 3], vec![4]]);
}

#[test]
fn collisions_are_reported_once() {
    let hb = vec![wire(0, 0, 200, 10), wire(10, 0, 200, 10), wire(0, 0, 5, 5)];
    let c = sorted(detect_collisions(&hb, 50));
    assert_eq!(c, vec![(0, 1), (0, 2)]);
}

#[test]
fn no_hitboxes_no_nets() {
    assert!(detect_collisions(&vec![], 50).is_empty());
    assert!(group_connected_pins(&vec![], 50).is_empty());
}
