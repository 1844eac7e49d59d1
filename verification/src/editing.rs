//! Editing the control polygon with the pointer: picking a point, dragging
//! it, appending a new one, and clearing the polygon.

use crate::geometrical_shapes::{Color, Point};
use vstd::prelude::*;

verus! {

/// Distance from the cursor below which a press picks a point, in pixels.
pub const PICK_RADIUS: i32 = 10;

/// The pointer in one frame: where the cursor is, whether the button went
/// down in this frame, and whether it is down.
#[derive(Clone, Copy, Debug, PartialEq, Eq, Structural)]
pub struct Pointer {
    pub x: i32,
    pub y: i32,
    pub pressed: bool,
    pub down: bool,
}

/// The square of the Euclidean distance between two positions.
pub open spec fn squared_distance(ax: int, ay: int, bx: int, by: int) -> int {
    (ax - bx) * (ax - bx) + (ay - by) * (ay - by)
}

/// Whether `point` lies at a distance below `radius` from `(x, y)`.
pub open spec fn within_pick(point: Point, x: int, y: int, radius: int) -> bool {
    0 < radius && squared_distance(point.0 as int, point.1 as int, x, y) < radius * radius
}

/// The first index from `from` on whose point lies within `radius` of
/// `(x, y)`, if there is one.
pub open spec fn first_hit_from(points: Seq<Point>, x: int, y: int, radius: int, from: int) -> Option<
    int,
>
    decreases points.len() - from,
{
    if from < 0 || from >= points.len() {
        None
    } else if within_pick(points[from], x, y, radius) {
        Some(from)
    } else {
        first_hit_from(points, x, y, radius, from + 1)
    }
}

/// The point that a press at `(x, y)` picks: the first one, in the order of
/// the polygon, that lies within `radius` of the cursor.
pub open spec fn first_hit(points: Seq<Point>, x: int, y: int, radius: int) -> Option<int> {
    first_hit_from(points, x, y, radius, 0)
}

/// `first_hit_from` finds a point within the radius and passes over none:
/// no point between `from` and its result lies within the radius.
pub proof fn lemma_first_hit_from(points: Seq<Point>, x: int, y: int, radius: int, from: int)
    requires
        0 <= from,
    ensures
        match first_hit_from(points, x, y, radius, from) {
            Some(i) => {
                &&& from <= i < points.len()
                &&& within_pick(points[i], x, y, radius)
                &&& forall|j: int| from <= j < i ==> !within_pick(#[trigger] points[j], x, y, radius)
            },
            None => forall|j: int|
                from <= j < points.len() ==> !within_pick(#[trigger] points[j], x, y, radius),
        },
    decreases points.len() - from,
{
    if from < points.len() && !within_pick(points[from], x, y, radius) {
        lemma_first_hit_from(points, x, y, radius, from + 1);
    }
}

/// The square of the Euclidean distance between two points.
pub fn distance_squared(a: &Point, b: &Point) -> (d: i128)
    ensures
        d == squared_distance(a.0 as int, a.1 as int, b.0 as int, b.1 as int),
{
    let dx: i128 = a.0 as i128 - b.0 as i128;
    let dy: i128 = a.1 as i128 - b.1 as i128;
    proof {
        lemma_square_range(dx as int);
        lemma_square_range(dy as int);
    }
    dx * dx + dy * dy
}

/// The square of a difference of two `i32` values fits in 65 bits.
proof fn lemma_square_range(v: int)
    by (nonlinear_arith)
    requires
        -0x1_0000_0000 <= v <= 0x1_0000_0000,
    ensures
        0 <= v * v <= 0x1_0000_0000_0000_0000,
{
}

/// Hit test: the index of the first point of the polygon whose distance from
/// `(x, y)` is below `pick_radius`. Of two points at one place the one with
/// the lower index is found.
pub fn hit_test(points: &Vec<Point>, x: i32, y: i32, pick_radius: i32) -> (hit: Option<usize>)
    ensures
        match hit {
            Some(i) => {
                &&& first_hit(points@, x as int, y as int, pick_radius as int) == Some(i as int)
                &&& i < points.len()
                &&& within_pick(points@[i as int], x as int, y as int, pick_radius as int)
                &&& forall|j: int|
                    0 <= j < i ==> !within_pick(
                        #[trigger] points@[j],
                        x as int,
                        y as int,
                        pick_radius as int,
                    )
            },
            None => {
                &&& first_hit(points@, x as int, y as int, pick_radius as int) is None
                &&& forall|j: int|
                    0 <= j < points.len() ==> !within_pick(
                        #[trigger] points@[j],
                        x as int,
                        y as int,
                        pick_radius as int,
                    )
            },
        },
{
    proof {
        lemma_first_hit_from(points@, x as int, y as int, pick_radius as int, 0);
    }
    if pick_radius <= 0 {
        return None;
    }
    let cursor = Point(x, y, Color { r: 0, g: 0, b: 0, a: 0 });
    proof {
        lemma_square_range(pick_radius as int);
    }
    let reach: i128 = pick_radius as i128 * pick_radius as i128;
    let mut i: usize = 0;
    while i < points.len()
        invariant
            i <= points.len(),
            0 < pick_radius,
            reach == pick_radius * pick_radius,
            cursor.0 == x,
            cursor.1 == y,
            first_hit(points@, x as int, y as int, pick_radius as int) == first_hit_from(
                points@,
                x as int,
                y as int,
                pick_radius as int,
                i as int,
            ),
        decreases points.len() - i,
    {
        if distance_squared(&points[i], &cursor) < reach {
            proof {
                lemma_first_hit_from(points@, x as int, y as int, pick_radius as int, 0);
            }
            return Some(i);
        }
        i = i + 1;
    }
    None
}

/// One frame of pointer editing. A press picks the first point within
/// `PICK_RADIUS` of the cursor for dragging, or appends a new point at the
/// cursor, in `color`, if there is none. While the button is down, the
/// dragged point follows the cursor and keeps its colour. When the button is
/// up, nothing is dragged.
pub open spec fn edited(
    points: Seq<Point>,
    dragging: Option<usize>,
    pointer: Pointer,
    color: Color,
) -> (Seq<Point>, Option<usize>) {
    let hit = first_hit(points, pointer.x as int, pointer.y as int, PICK_RADIUS as int);
    let pressed_points = if pointer.pressed && hit is None {
        points.push(Point(pointer.x, pointer.y, color))
    } else {
        points
    };
    let pressed_dragging = if pointer.pressed && hit is Some {
        Some(hit->0 as usize)
    } else {
        dragging
    };
    if !pointer.down {
        (pressed_points, None)
    } else if pressed_dragging is Some && pressed_dragging->0 < pressed_points.len() {
        let i = pressed_dragging->0 as int;
        (
            pressed_points.update(i, Point(pointer.x, pointer.y, pressed_points[i].2)),
            pressed_dragging,
        )
    } else {
        (pressed_points, None)
    }
}

/// Applies one frame of pointer input to the control polygon and to the
/// index of the dragged point.
pub fn add_or_drag(
    points: &mut Vec<Point>,
    dragging: &mut Option<usize>,
    pointer: &Pointer,
    color: Color,
)
    ensures
        (final(points)@, *final(dragging)) == edited(old(points)@, *old(dragging), *pointer, color),
{
    if pointer.pressed {
        match hit_test(points, pointer.x, pointer.y, PICK_RADIUS) {
            Some(i) => {
                *dragging = Some(i);
            },
            None => {
                points.push(Point::new(pointer.x, pointer.y, color));
            },
        }
    }
    if pointer.down {
        match *dragging {
            Some(i) => {
                if i < points.len() {
                    let kept = points[i].2;
                    points.set(i, Point::new(pointer.x, pointer.y, kept));
                } else {
                    *dragging = None;
                }
            },
            None => {},
        }
    } else {
        *dragging = None;
    }
}

/// Empties the control polygon.
pub fn clear(points: &mut Vec<Point>)
    ensures
        final(points)@ == Seq::<Point>::empty(),
{
    points.clear();
}

/// Of two points at the same place, a press never picks the later one.
pub proof fn law_hit_prefers_lower_index(
    points: Seq<Point>,
    x: int,
    y: int,
    radius: int,
    lower: int,
    higher: int,
)
    requires
        0 <= lower < higher < points.len(),
        points[lower].0 == points[higher].0,
        points[lower].1 == points[higher].1,
    ensures
        first_hit(points, x, y, radius) != Some(higher),
        within_pick(points[higher], x, y, radius) ==> first_hit(points, x, y, radius) is Some
            && first_hit(points, x, y, radius)->0 <= lower,
{
    lemma_first_hit_from(points, x, y, radius, 0);
}

} // verus!
