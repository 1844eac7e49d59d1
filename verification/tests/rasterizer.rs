use chaikin::display::{is_well_formed, new_surface};
use chaikin::geometrical_shapes::{Circle, Color, Displayable, Drawable, Line, Point};
use chaikin::rasterizer::{draw_circle, draw_line, draw_point};
use raster::Image;

const RED: Color = Color { r: 255, g: 0, b: 0, a: 255 };
const BLACK: Color = Color { r: 0, g: 0, b: 0, a: 255 };

fn color_at(image: &Image, x: i32, y: i32) -> Color {
    let at = (4 * (y * image.width + x)) as usize;
    Color { r: image.bytes[at], g: image.bytes[at + 1], b: image.bytes[at + 2], a: image.bytes[at + 3] }
}

/// The positions that are no longer black, column by column.
fn written(image: &Image) -> Vec<(i32, i32)> {
    let mut found = Vec::new();
    for x in 0..image.width {
        for y in 0..image.height {
            if color_at(image, x, y) != BLACK {
                found.push((x, y));
            }
        }
    }
    found
}

fn sorted(mut positions: Vec<(i32, i32)>) -> Vec<(i32, i32)> {
    positions.sort();
    positions.dedup();
    positions
}

#[test]
fn line_from_a_point_to_itself_writes_one_pixel() {
    let mut image = new_surface(16, 16).unwrap();
    draw_line(&mut image, 7, 9, 7, 9, RED);
    assert_eq!(written(&image), vec![(7, 9)]);
    assert_eq!(color_at(&image, 7, 9), RED);
}

#[test]
fn line_plots_both_ends_and_every_step() {
    let mut image = new_surface(16, 16).unwrap();
    draw_line(&mut image, 0, 0, 10, 5, RED);
    let expected = vec![
        (0, 0), (1, 1), (2, 1), (3, 2), (4, 2), (5, 3), (6, 3), (7, 4), (8, 4), (9, 5), (10, 5),
    ];
    assert_eq!(written(&image), expected);
}

#[test]
fn line_steps_along_the_longer_axis() {
    let mut image = new_surface(16, 16).unwrap();
    draw_line(&mut image, 2, 9, 7, 1, RED);
    let expected = sorted(vec![
        (2, 9), (3, 8), (3, 7), (4, 6), (5, 5), (5, 4), (6, 3), (6, 2), (7, 1),
    ]);
    assert_eq!(written(&image), expected);
}

#[test]
fn line_runs_backwards_as_well() {
    let mut image = new_surface(16, 16).unwrap();
    draw_line(&mut image, 5, 5, 1, 4, RED);
    assert_eq!(written(&image), sorted(vec![(5, 5), (4, 5), (3, 5), (2, 4), (1, 4)]));
}

#[test]
fn vertical_line_has_one_pixel_per_row() {
    let mut image = new_surface(8, 8).unwrap();
    draw_line(&mut image, 3, 3, 3, 7, RED);
    assert_eq!(written(&image), vec![(3, 3), (3, 4), (3, 5), (3, 6), (3, 7)]);
}

#[test]
fn line_is_clipped_at_the_border() {
    let mut image = new_surface(4, 4).unwrap();
    draw_line(&mut image, -3, -2, 3, 2, RED);
    assert_eq!(written(&image), vec![(0, 0), (1, 1), (2, 1), (3, 2)]);
    assert!(is_well_formed(&image));
}

#[test]
fn line_far_outside_leaves_the_image_alone() {
    let mut image = new_surface(4, 4).unwrap();
    draw_line(&mut image, -2000, 100, -1000, 900, RED);
    assert!(written(&image).is_empty());
    draw_line(&mut image, i32::MAX, i32::MAX, i32::MAX - 40, i32::MAX - 3, RED);
    assert!(written(&image).is_empty());
}

#[test]
fn disc_of_radius_two_has_thirteen_pixels() {
    let mut image = new_surface(12, 12).unwrap();
    draw_point(&mut image, 5, 5, 2, RED);
    let expected = vec![
        (3, 5), (4, 4), (4, 5), (4, 6), (5, 3), (5, 4), (5, 5), (5, 6), (5, 7), (6, 4), (6, 5),
        (6, 6), (7, 5),
    ];
    assert_eq!(written(&image), expected);
}

#[test]
fn disc_includes_its_rim() {
    let mut image = new_surface(12, 12).unwrap();
    draw_point(&mut image, 5, 5, 5, RED);
    // 3^2 + 4^2 = 5^2 lies on the rim, 4^2 + 4^2 lies outside.
    assert_eq!(color_at(&image, 8, 9), RED);
    assert_eq!(color_at(&image, 10, 5), RED);
    assert_eq!(color_at(&image, 9, 9), BLACK);
}

#[test]
fn disc_of_radius_zero_is_its_centre() {
    let mut image = new_surface(6, 6).unwrap();
    draw_point(&mut image, 2, 3, 0, RED);
    assert_eq!(written(&image), vec![(2, 3)]);
}

#[test]
fn disc_of_negative_radius_is_empty() {
    let mut image = new_surface(6, 6).unwrap();
    draw_point(&mut image, 2, 3, -1, RED);
    assert!(written(&image).is_empty());
}

#[test]
fn disc_is_clipped_at_the_corner() {
    let mut image = new_surface(6, 6).unwrap();
    draw_point(&mut image, 0, 0, 2, RED);
    assert_eq!(written(&image), vec![(0, 0), (0, 1), (0, 2), (1, 0), (1, 1), (2, 0)]);
}

#[test]
fn circle_of_radius_one_is_four_pixels() {
    let mut image = new_surface(12, 12).unwrap();
    draw_circle(&mut image, 5, 5, 1, RED);
    assert_eq!(written(&image), vec![(4, 5), (5, 4), (5, 6), (6, 5)]);
}

#[test]
fn circle_of_radius_three_is_an_outline() {
    let mut image = new_surface(12, 12).unwrap();
    draw_circle(&mut image, 5, 5, 3, RED);
    let expected = vec![
        (2, 4), (2, 5), (2, 6), (3, 3), (3, 7), (4, 2), (4, 8), (5, 2), (5, 8), (6, 2), (6, 8),
        (7, 3), (7, 7), (8, 4), (8, 5), (8, 6),
    ];
    assert_eq!(written(&image), expected);
    assert_eq!(color_at(&image, 5, 5), BLACK);
}

#[test]
fn circle_of_radius_five_has_twenty_eight_pixels() {
    let mut image = new_surface(24, 24).unwrap();
    draw_circle(&mut image, 10, 10, 5, RED);
    let expected = vec![
        (5, 8), (5, 9), (5, 10), (5, 11), (5, 12), (6, 7), (6, 13), (7, 6), (7, 14), (8, 5),
        (8, 15), (9, 5), (9, 15), (10, 5), (10, 15), (11, 5), (11, 15), (12, 5), (12, 15), (13, 6),
        (13, 14), (14, 7), (14, 13), (15, 8), (15, 9), (15, 10), (15, 11), (15, 12),
    ];
    assert_eq!(written(&image), expected);
}

#[test]
fn circle_without_radius_draws_nothing() {
    let mut image = new_surface(12, 12).unwrap();
    draw_circle(&mut image, 5, 5, 0, RED);
    draw_circle(&mut image, 5, 5, -4, RED);
    assert!(written(&image).is_empty());
}

#[test]
fn circle_that_fills_the_image_touches_its_border() {
    let mut image = new_surface(3, 3).unwrap();
    draw_circle(&mut image, 1, 1, 1, RED);
    assert_eq!(written(&image), vec![(0, 1), (1, 0), (1, 2), (2, 1)]);
}

#[test]
fn point_draws_its_marker_in_its_colour() {
    let mut image = new_surface(12, 12).unwrap();
    let green = Color::rgb(0, 200, 0);
    Point::new(6, 6, green).draw(&mut image);
    assert_eq!(written(&image).len(), 13);
    assert_eq!(color_at(&image, 6, 4), green);
    assert_eq!(color_at(&image, 8, 6), green);
    assert_eq!(color_at(&image, 8, 8), BLACK);
}

#[test]
fn line_shape_draws_the_samples_and_nothing_else() {
    let mut image = new_surface(32, 16).unwrap();
    let blue = Color::rgb(0, 0, 250);
    let from = Point::new(4, 4, RED);
    let to = Point::new(24, 10, RED);
    Line::new(&from, &to, &blue).draw(&mut image);
    let expected = vec![
        (4, 4), (5, 4), (6, 5), (7, 5), (8, 5), (9, 6), (10, 6), (11, 6), (12, 6), (13, 7),
        (14, 7), (15, 7), (16, 8), (17, 8), (18, 8), (19, 9), (20, 9), (21, 9), (22, 9), (23, 10),
        (24, 10),
    ];
    assert_eq!(written(&image), expected);
    // The line is drawn in its own colour, not in that of its points.
    for (x, y) in expected {
        assert_eq!(color_at(&image, x, y), blue);
    }
}

#[test]
fn line_shape_between_equal_points_writes_one_pixel() {
    let mut image = new_surface(20, 20).unwrap();
    let p = Point::new(5, 5, RED);
    Line::new(&p, &p, &RED).draw(&mut image);
    assert_eq!(written(&image), vec![(5, 5)]);
}

#[test]
fn line_shape_of_slope_one_half() {
    let mut image = new_surface(10, 10).unwrap();
    Line::new(&Point::new(0, 0, RED), &Point::new(4, 2, RED), &RED).draw(&mut image);
    assert_eq!(written(&image), vec![(0, 0), (1, 1), (2, 1), (3, 2), (4, 2)]);
}

#[test]
fn line_shape_running_up_and_left() {
    let mut image = new_surface(10, 10).unwrap();
    Line::new(&Point::new(3, 5, RED), &Point::new(1, 0, RED), &RED).draw(&mut image);
    assert_eq!(written(&image), sorted(vec![(3, 5), (3, 4), (2, 3), (2, 2), (1, 1), (1, 0)]));
}

#[test]
fn line_stays_in_the_box_of_its_ends() {
    for (x0, y0, x1, y1) in [(3, 17, 29, 2), (29, 2, 3, 17), (8, 8, 8, 30), (30, 9, 1, 9)] {
        let mut image = new_surface(32, 32).unwrap();
        draw_line(&mut image, x0, y0, x1, y1, RED);
        let steps = (x1 - x0).abs().max((y1 - y0).abs()) as usize;
        let pixels = written(&image);
        assert_eq!(pixels.len(), steps + 1);
        for (x, y) in pixels {
            assert!(x0.min(x1) <= x && x <= x0.max(x1));
            assert!(y0.min(y1) <= y && y <= y0.max(y1));
        }
        assert_eq!(color_at(&image, x0, y0), RED);
        assert_eq!(color_at(&image, x1, y1), RED);
    }
}

#[test]
fn circle_shape_is_centred_half_a_radius_up_and_left() {
    let mut image = new_surface(24, 24).unwrap();
    Circle::new(10, 10, 4, RED).draw(&mut image);
    let expected = vec![
        (4, 7), (4, 8), (4, 9), (5, 6), (5, 10), (6, 5), (6, 11), (7, 4), (7, 12), (8, 4),
        (8, 12), (9, 4), (9, 12), (10, 5), (10, 11), (11, 6), (11, 10), (12, 7), (12, 8), (12, 9),
    ];
    assert_eq!(written(&image), expected);
}

#[test]
fn circle_shape_halves_an_odd_negative_radius_towards_zero() {
    let mut image = new_surface(8, 8).unwrap();
    // Centre (4 - (-3) / 2, 4 - (-3) / 2) = (5, 5); a negative radius draws nothing.
    Circle::new(4, 4, -3, RED).draw(&mut image);
    assert!(written(&image).is_empty());
}

#[test]
fn random_colours_are_opaque_and_avoid_the_extremes() {
    for _ in 0..500 {
        let c = Line::color();
        assert!(1 <= c.r && c.r < 255);
        assert!(1 <= c.g && c.g < 255);
        assert!(1 <= c.b && c.b < 255);
        assert_eq!(c.a, 255);
    }
}

#[test]
fn random_colours_vary() {
    let first = Point::color();
    let mut differs = false;
    for _ in 0..64 {
        if Circle::color() != first {
            differs = true;
        }
    }
    assert!(differs);
}

#[test]
fn display_writes_inside_and_ignores_outside() {
    let mut image = new_surface(3, 2).unwrap();
    let c = Color::rgba(1, 2, 3, 4);
    image.display(2, 1, c);
    image.display(3, 1, c);
    image.display(-1, 1, c);
    image.display(1, 2, c);
    image.display(1, -1, c);
    assert_eq!(written(&image), vec![(2, 1)]);
    assert_eq!(&image.bytes[20..24], &[1, 2, 3, 4]);
    assert_eq!(image.bytes.len(), 24);
    assert_eq!((image.width, image.height), (3, 2));
}
