use rusty_simulator::structure::{Hitbox, HitboxType, Point, Rect, WireSegment};
use rusty_simulator::sweep_line::{find_intersections, Intersection};

fn seg(x1: i64, y1: i64, x2: i64, y2: i64) -> WireSegment {
    WireSegment {
        start: Point { x: x1, y: y1 },
        end: Point { x: x2, y: y2 },
        hitbox: Hitbox { rect: Rect { x: x1.min(x2), y: y1.min(y2), w: (x2 - x1).abs(), h: (y2 - y1).abs() }, kind: HitboxType::Wire },
    }
}

#[test]
fn collinear_horizontals_reported_once() {
    let r = find_intersections(&vec![seg(0, 10, 50, 10), seg(60, 10, 30, 10)]);
    assert_eq!(r, vec![Intersection::HorizontalHorizontal(0, 1)]);
}

#[test]
fn vertical_crossing_horizontal_is_reported() {
    let r = find_intersections(&vec![seg(20, 0, 20, 40), seg(0, 10, 50, 10)]);
    assert_eq!(r, vec![Intersection::HorizontalVertical(1, 0)]);
}

#[test]
fn parallel_apart_segments_give_nothing() {
    assert!(find_intersections(&vec![seg(0, 10, 50, 10), seg(0, 20, 50, 20)]).is_empty());
    assert!(find_intersections(&vec![seg(0, 0, 0, 50), seg(10, 0, 10, 50)]).is_empty());
    assert!(find_intersections(&vec![seg(0, 10, 50, 10), seg(51, 10, 80, 10)]).is_empty());
}

#[test]
fn collinear_verticals_need_more_than_a_point() {
    assert_eq!(find_intersections(&vec![seg(5, 0, 5, 20), seg(5, 30, 5, 10)]), vec![Intersection::VerticalVertical(0, 1)]);
    assert!(find_intersections(&vec![seg(5, 0, 5, 20), seg(5, 20, 5, 40)]).is_empty());
}

#[test]
fn several_crossings() {
    let r = find_intersections(&vec![seg(0, 0, 100, 0), seg(50, -10, 50, 10), seg(0, 5, 100, 5), seg(90, 0, 120, 0)]);
    let expected = [
        Intersection::HorizontalVertical(0, 1),
        Intersection::HorizontalHorizontal(0, 3),
        Intersection::HorizontalVertical(2, 1),
    ];
    assert_eq!(r.len(), expected.len());
    for x in expected {
        assert!(r.contains(&x));
    }
}

#[test]
fn crossing_at_segment_ends_counts() {
    let r = find_intersections(&vec![seg(0, 0, 10, 0), seg(10, 0, 10, 20), seg(10, 0, 30, 0)]);
    let expected = [
        Intersection::HorizontalVertical(0, 1),
        Intersection::HorizontalVertical(2, 1),
        Intersection::HorizontalHorizontal(0, 2),
    ];
    assert_eq!(r.len(), expected.len());
    for x in expected {
        assert!(r.contains(&x));
    }
}

#[test]
fn no_segments_no_crossings() {
    assert!(find_intersections(&vec![]).is_empty());
}
