use chaikin::editing::{add_or_drag, clear, distance_squared, hit_test, Pointer, PICK_RADIUS};
use chaikin::geometrical_shapes::{Color, Point};

const WHITE: Color = Color { r: 255, g: 255, b: 255, a: 255 };
const GREY: Color = Color { r: 128, g: 128, b: 128, a: 255 };

fn polygon(positions: &[(i32, i32)]) -> Vec<Point> {
    positions.iter().map(|&(x, y)| Point::new(x, y, WHITE)).collect()
}

fn pointer(x: i32, y: i32, pressed: bool, down: bool) -> Pointer {
    Pointer { x, y, pressed, down }
}

#[test]
fn hit_test_prefers_the_lower_index_of_two_equal_points() {
    let points = polygon(&[(50, 50), (20, 20), (20, 20), (24, 20)]);
    assert_eq!(hit_test(&points, 21, 21, 10), Some(1));
    assert_eq!(hit_test(&points, 20, 20, 1), Some(1));
}

#[test]
fn hit_test_takes_the_first_point_in_reach_not_the_nearest() {
    let points = polygon(&[(0, 0), (8, 0), (5, 0)]);
    assert_eq!(hit_test(&points, 6, 0, 10), Some(0));
    assert_eq!(hit_test(&points, 6, 0, 3), Some(1));
    assert_eq!(hit_test(&points, 6, 0, 2), Some(2));
}

#[test]
fn hit_test_excludes_the_radius_itself() {
    let points = polygon(&[(100, 100)]);
    assert_eq!(hit_test(&points, 110, 100, 10), None);
    assert_eq!(hit_test(&points, 106, 108, 10), None);
    assert_eq!(hit_test(&points, 109, 100, 10), Some(0));
    assert_eq!(hit_test(&points, 107, 107, 10), Some(0));
}

#[test]
fn hit_test_finds_nothing_without_points_or_radius() {
    assert_eq!(hit_test(&Vec::new(), 0, 0, 10), None);
    let points = polygon(&[(3, 3)]);
    assert_eq!(hit_test(&points, 3, 3, 0), None);
    assert_eq!(hit_test(&points, 3, 3, -5), None);
    assert_eq!(hit_test(&points, 300, 3, 10), None);
}

#[test]
fn hit_test_measures_across_the_whole_range() {
    let points = polygon(&[(i32::MIN, i32::MIN), (i32::MAX, i32::MAX)]);
    assert_eq!(hit_test(&points, i32::MAX, i32::MAX - 3, i32::MAX), Some(1));
    assert_eq!(hit_test(&points, i32::MIN + 1, i32::MIN, 2), Some(0));
    assert_eq!(hit_test(&points, 0, 0, i32::MAX), None);
}

#[test]
fn distance_squared_is_the_sum_of_squares() {
    let a = Point::new(1, 2, WHITE);
    let b = Point::new(4, 6, GREY);
    assert_eq!(distance_squared(&a, &b), 25);
    assert_eq!(distance_squared(&b, &a), 25);
    assert_eq!(distance_squared(&a, &a), 0);
    let low = Point::new(i32::MIN, i32::MIN, WHITE);
    let high = Point::new(i32::MAX, i32::MAX, WHITE);
    assert_eq!(distance_squared(&low, &high), 2 * 4294967295i128 * 4294967295i128);
}

#[test]
fn press_on_empty_ground_appends_a_point() {
    let mut points = polygon(&[(10, 10)]);
    let mut dragging = None;
    add_or_drag(&mut points, &mut dragging, &pointer(40, 40, true, true), GREY);
    assert_eq!(points, vec![Point(10, 10, WHITE), Point(40, 40, GREY)]);
    assert_eq!(dragging, None);
}

#[test]
fn press_at_the_pick_radius_appends_a_point() {
    assert_eq!(PICK_RADIUS, 10);
    let mut points = polygon(&[(10, 10)]);
    let mut dragging = None;
    add_or_drag(&mut points, &mut dragging, &pointer(20, 10, true, true), GREY);
    assert_eq!(points.len(), 2);
    assert_eq!(dragging, None);
}

#[test]
fn press_near_a_point_picks_it_and_moves_it_to_the_cursor() {
    let mut points = vec![Point(10, 10, WHITE), Point(100, 100, GREY), Point(102, 100, WHITE)];
    let mut dragging = None;
    add_or_drag(&mut points, &mut dragging, &pointer(104, 103, true, true), WHITE);
    assert_eq!(dragging, Some(1));
    assert_eq!(points, vec![Point(10, 10, WHITE), Point(104, 103, GREY), Point(102, 100, WHITE)]);
}

#[test]
fn held_button_drags_the_picked_point() {
    let mut points = polygon(&[(10, 10), (100, 100)]);
    let mut dragging = Some(0);
    add_or_drag(&mut points, &mut dragging, &pointer(300, 7, false, true), GREY);
    assert_eq!(points, polygon(&[(300, 7), (100, 100)]));
    assert_eq!(dragging, Some(0));
    add_or_drag(&mut points, &mut dragging, &pointer(-4, 9, false, true), GREY);
    assert_eq!(points, polygon(&[(-4, 9), (100, 100)]));
    assert_eq!(dragging, Some(0));
}

#[test]
fn held_button_without_a_picked_point_changes_nothing() {
    let mut points = polygon(&[(10, 10), (100, 100)]);
    let mut dragging = None;
    add_or_drag(&mut points, &mut dragging, &pointer(10, 10, false, true), GREY);
    assert_eq!(points, polygon(&[(10, 10), (100, 100)]));
    assert_eq!(dragging, None);
}

#[test]
fn release_ends_the_drag() {
    let mut points = polygon(&[(10, 10), (100, 100)]);
    let mut dragging = Some(1);
    add_or_drag(&mut points, &mut dragging, &pointer(50, 50, false, false), GREY);
    assert_eq!(points, polygon(&[(10, 10), (100, 100)]));
    assert_eq!(dragging, None);
}

#[test]
fn press_without_hold_picks_and_lets_go() {
    let mut points = polygon(&[(10, 10)]);
    let mut dragging = None;
    add_or_drag(&mut points, &mut dragging, &pointer(12, 12, true, false), GREY);
    assert_eq!(points, polygon(&[(10, 10)]));
    assert_eq!(dragging, None);
}

#[test]
fn drag_of_a_point_that_is_gone_is_dropped() {
    let mut points = polygon(&[(10, 10)]);
    let mut dragging = Some(4);
    add_or_drag(&mut points, &mut dragging, &pointer(50, 50, false, true), GREY);
    assert_eq!(points, polygon(&[(10, 10)]));
    assert_eq!(dragging, None);
}

#[test]
fn clear_empties_the_polygon() {
    let mut points = polygon(&[(10, 10), (100, 100), (5, 5)]);
    clear(&mut points);
    assert!(points.is_empty());
    clear(&mut points);
    assert!(points.is_empty());
}
