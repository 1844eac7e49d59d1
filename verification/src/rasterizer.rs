//! The rasterizer: which pixels a disc, a line and a circle cover, and the
//! functions that write them to an image.

use crate::display::image_well_formed;
use crate::geometrical_shapes::{paint, plot, Color, Displayable};
use raster::Image;
use vstd::prelude::*;

verus! {

/// Painting nothing changes nothing.
pub proof fn lemma_paint_nothing(pixels: Map<(int, int), Color>, color: Color)
    ensures
        paint(pixels, Set::empty(), color) == pixels,
{
    assert(paint(pixels, Set::empty(), color) =~= pixels);
}

/// One more write of the same colour adds its position to what was painted.
pub proof fn lemma_paint_one_more(
    pixels: Map<(int, int), Color>,
    footprint: Set<(int, int)>,
    x: int,
    y: int,
    color: Color,
)
    ensures
        plot(paint(pixels, footprint, color), x, y, color) == paint(
            pixels,
            footprint.insert((x, y)),
            color,
        ),
{
    assert(plot(paint(pixels, footprint, color), x, y, color) =~= paint(
        pixels,
        footprint.insert((x, y)),
        color,
    ));
}

/// Painting one footprint and then another, in one colour, paints their union.
pub proof fn lemma_paint_twice(
    pixels: Map<(int, int), Color>,
    first: Set<(int, int)>,
    second: Set<(int, int)>,
    color: Color,
)
    ensures
        paint(paint(pixels, first, color), second, color) == paint(
            pixels,
            first.union(second),
            color,
        ),
{
    assert(paint(paint(pixels, first, color), second, color) =~= paint(
        pixels,
        first.union(second),
        color,
    ));
}

/// Every position of a well-formed image has `i32` coordinates.
proof fn lemma_positions_fit(image: Image, x: int, y: int)
    requires
        image_well_formed(image),
        image.pixels().dom().contains((x, y)),
    ensures
        0 <= x <= i32::MAX,
        0 <= y <= i32::MAX,
{
    let w = image.columns();
    let h = image.rows();
    assert(w <= w * h && h <= w * h) by (nonlinear_arith)
        requires
            1 <= w,
            1 <= h,
    ;
}

/// Writes `color` at `(x, y)` if the image has such a pixel.
fn display_at(image: &mut Image, x: i128, y: i128, color: Color)
    requires
        old(image).well_formed(),
    ensures
        final(image).well_formed(),
        final(image).columns() == old(image).columns(),
        final(image).rows() == old(image).rows(),
        final(image).pixels() == plot(old(image).pixels(), x as int, y as int, color),
{
    if -2147483648 <= x && x <= 2147483647 && -2147483648 <= y && y <= 2147483647 {
        image.display(x as i32, y as i32, color);
    } else {
        proof {
            if image.pixels().dom().contains((x as int, y as int)) {
                lemma_positions_fit(*image, x as int, y as int);
            }
        }
    }
}

/// The positions of the filled disc of radius `radius` about `(cx, cy)`, rim
/// included. A negative radius covers nothing.
pub open spec fn disc(cx: int, cy: int, radius: int) -> Set<(int, int)> {
    Set::new(
        |p: (int, int)|
            0 <= radius && (p.0 - cx) * (p.0 - cx) + (p.1 - cy) * (p.1 - cy) <= radius * radius,
    )
}

/// The part of a disc that a column-by-column scan has passed when it stands
/// at offset `(dx, dy)` from the centre.
spec fn disc_scanned(cx: int, cy: int, radius: int, dx: int, dy: int) -> Set<(int, int)> {
    Set::new(
        |p: (int, int)|
            disc(cx, cy, radius).contains(p) && (p.0 - cx < dx || (p.0 - cx == dx && p.1 - cy < dy)),
    )
}

/// A disc lies within the square about it.
proof fn lemma_disc_within_box(dx: int, dy: int, radius: int)
    by (nonlinear_arith)
    requires
        0 <= radius,
        dx * dx + dy * dy <= radius * radius,
    ensures
        -radius <= dx <= radius,
        -radius <= dy <= radius,
{
}

/// A bound on a number bounds its square.
proof fn lemma_square_bound(v: int, bound: int)
    by (nonlinear_arith)
    requires
        -bound <= v <= bound,
    ensures
        0 <= v * v <= bound * bound,
{
}

/// Disc marker: writes `color` to every pixel of `image` whose squared
/// distance from `(cx, cy)` is at most `radius * radius`.
pub fn draw_point(image: &mut Image, cx: i32, cy: i32, radius: i32, color: Color)
    requires
        old(image).well_formed(),
    ensures
        final(image).well_formed(),
        final(image).columns() == old(image).columns(),
        final(image).rows() == old(image).rows(),
        final(image).pixels() == paint(
            old(image).pixels(),
            disc(cx as int, cy as int, radius as int),
            color,
        ),
{
    let ghost before = image.pixels();
    let r: i128 = radius as i128;
    if r < 0 {
        proof {
            assert(disc(cx as int, cy as int, radius as int) =~= Set::empty());
            lemma_paint_nothing(before, color);
        }
        return ;
    }
    let mut dx: i128 = -r;
    proof {
        assert(disc_scanned(cx as int, cy as int, r as int, dx as int, -r as int) =~= Set::empty())
            by {
            assert forall|p: (int, int)| disc(cx as int, cy as int, r as int).contains(p) implies -r
                <= p.0 - cx && -r <= p.1 - cy by {
                lemma_disc_within_box(p.0 - cx, p.1 - cy, r as int);
            }
        }
        lemma_paint_nothing(before, color);
    }
    while dx <= r
        invariant
            0 <= r <= i32::MAX,
            r == radius,
            -r <= dx <= r + 1,
            image.well_formed(),
            image.columns() == old(image).columns(),
            image.rows() == old(image).rows(),
            before == old(image).pixels(),
            image.pixels() == paint(
                before,
                disc_scanned(cx as int, cy as int, r as int, dx as int, -r as int),
                color,
            ),
        decreases r + 1 - dx,
    {
        let mut dy: i128 = -r;
        while dy <= r
            invariant
                0 <= r <= i32::MAX,
                r == radius,
                -r <= dx <= r,
                -r <= dy <= r + 1,
                image.well_formed(),
                image.columns() == old(image).columns(),
                image.rows() == old(image).rows(),
                before == old(image).pixels(),
                image.pixels() == paint(
                    before,
                    disc_scanned(cx as int, cy as int, r as int, dx as int, dy as int),
                    color,
                ),
            decreases r + 1 - dy,
        {
            proof {
                lemma_square_bound(dx as int, r as int);
                lemma_square_bound(dy as int, r as int);
                lemma_square_bound(r as int, i32::MAX as int);
            }
            if dx * dx + dy * dy <= r * r {
                let ghost painted = disc_scanned(cx as int, cy as int, r as int, dx as int, dy as int);
                display_at(image, cx as i128 + dx, cy as i128 + dy, color);
                proof {
                    lemma_paint_one_more(before, painted, cx + dx, cy + dy, color);
                    assert(painted.insert((cx + dx, cy + dy)) =~= disc_scanned(
                        cx as int,
                        cy as int,
                        r as int,
                        dx as int,
                        dy + 1,
                    ));
                }
            } else {
                assert(disc_scanned(cx as int, cy as int, r as int, dx as int, dy as int)
                    =~= disc_scanned(cx as int, cy as int, r as int, dx as int, dy + 1));
            }
            dy = dy + 1;
        }
        proof {
            assert(disc_scanned(cx as int, cy as int, r as int, dx as int, r + 1) =~= disc_scanned(
                cx as int,
                cy as int,
                r as int,
                dx + 1,
                -r as int,
            )) by {
                assert forall|p: (int, int)| disc(cx as int, cy as int, r as int).contains(p) implies -r
                    <= p.1 - cy <= r by {
                    lemma_disc_within_box(p.0 - cx, p.1 - cy, r as int);
                }
            }
        }
        dx = dx + 1;
    }
    proof {
        assert(disc_scanned(cx as int, cy as int, r as int, r + 1, -r as int) =~= disc(
            cx as int,
            cy as int,
            radius as int,
        )) by {
            assert forall|p: (int, int)| disc(cx as int, cy as int, r as int).contains(p) implies p.0
                - cx <= r by {
                lemma_disc_within_box(p.0 - cx, p.1 - cy, r as int);
            }
        }
    }
}

/// Whether the midpoint between the rows `y` and `y + 1` of column `x` lies
/// outside the circle of radius `radius` about the origin:
/// `x^2 + (y + 1/2)^2 > radius^2`, cleared of fractions.
pub open spec fn midpoint_outside(radius: int, x: int, y: int) -> bool {
    4 * (x * x) + (2 * y + 1) * (2 * y + 1) > 4 * (radius * radius)
}

/// The row offset with which the circle tracer enters column `x`: the top of
/// the circle for the first column, then the row of the column before.
pub open spec fn circle_entry(radius: int, x: int) -> int
    decreases x,
{
    if x <= 0 {
        -radius
    } else {
        circle_row(radius, x - 1)
    }
}

/// The row offset at which the circle tracer plots column `x`: one row
/// closer to the centre than it entered with, if the midpoint below the
/// entry row lies outside the circle.
pub open spec fn circle_row(radius: int, x: int) -> int
    decreases x,
{
    let entry = if x <= 0 {
        -radius
    } else {
        circle_row(radius, x - 1)
    };
    if midpoint_outside(radius, x, entry) {
        entry + 1
    } else {
        entry
    }
}

/// The eight mirror images of the offset `(x, y)` about `(cx, cy)`.
pub open spec fn octants(cx: int, cy: int, x: int, y: int) -> Set<(int, int)> {
    set![
        (cx + x, cy + y),
        (cx - x, cy + y),
        (cx + x, cy - y),
        (cx - x, cy - y),
        (cx + y, cy + x),
        (cx - y, cy + x),
        (cx + y, cy - x),
        (cx - y, cy - x),
    ]
}

/// What the circle tracer plots for column `x`: eight positions while the
/// column lies left of the diagonal, nothing from there on.
pub open spec fn circle_column(cx: int, cy: int, radius: int, x: int) -> Set<(int, int)> {
    if 0 <= x < -circle_entry(radius, x) {
        octants(cx, cy, x, circle_row(radius, x))
    } else {
        Set::empty()
    }
}

/// The outline that the midpoint tracer draws for the circle of radius
/// `radius` about `(cx, cy)`.
pub open spec fn circle(cx: int, cy: int, radius: int) -> Set<(int, int)> {
    Set::new(|p: (int, int)| exists|x: int| #[trigger] circle_column(cx, cy, radius, x).contains(p))
}

/// The part of the outline that lies in the columns before `upto`.
spec fn circle_traced(cx: int, cy: int, radius: int, upto: int) -> Set<(int, int)> {
    Set::new(
        |p: (int, int)|
            exists|x: int| x < upto && #[trigger] circle_column(cx, cy, radius, x).contains(p),
    )
}

/// The tracer never moves away from the centre.
proof fn lemma_circle_entry_monotone(radius: int, x: int, later: int)
    requires
        0 <= x <= later,
    ensures
        circle_entry(radius, x) <= circle_entry(radius, later),
    decreases later - x,
{
    if x < later {
        lemma_circle_entry_monotone(radius, x, later - 1);
    }
}

/// The outline up to and with column `x` is the outline before column `x`
/// and what column `x` plots.
proof fn lemma_circle_next_column(cx: int, cy: int, radius: int, x: int)
    ensures
        circle_traced(cx, cy, radius, x + 1) == circle_traced(cx, cy, radius, x).union(
            circle_column(cx, cy, radius, x),
        ),
{
    let next = circle_traced(cx, cy, radius, x + 1);
    let both = circle_traced(cx, cy, radius, x).union(circle_column(cx, cy, radius, x));
    assert forall|p: (int, int)| next.contains(p) implies both.contains(p) by {
        let k = choose|k: int| k < x + 1 && #[trigger] circle_column(cx, cy, radius, k).contains(p);
        if k < x {
            assert(circle_traced(cx, cy, radius, x).contains(p));
        }
    }
    assert forall|p: (int, int)| both.contains(p) implies next.contains(p) by {
        if circle_column(cx, cy, radius, x).contains(p) {
        } else {
            let k = choose|k: int| k < x && #[trigger] circle_column(cx, cy, radius, k).contains(p);
            assert(k < x + 1);
        }
    }
    assert(next =~= both);
}

/// Writes `color` at the eight mirror images of the offset `(x, y)`.
fn plot_octants(image: &mut Image, cx: i128, cy: i128, x: i128, y: i128, color: Color)
    requires
        old(image).well_formed(),
        -0x1_0000_0000 <= cx <= 0x1_0000_0000,
        -0x1_0000_0000 <= cy <= 0x1_0000_0000,
        -0x1_0000_0000 <= x <= 0x1_0000_0000,
        -0x1_0000_0000 <= y <= 0x1_0000_0000,
    ensures
        final(image).well_formed(),
        final(image).columns() == old(image).columns(),
        final(image).rows() == old(image).rows(),
        final(image).pixels() == paint(
            old(image).pixels(),
            octants(cx as int, cy as int, x as int, y as int),
            color,
        ),
{
    let ghost before = image.pixels();
    let ghost s0 = Set::<(int, int)>::empty();
    let ghost s1 = s0.insert((cx + x, cy + y));
    let ghost s2 = s1.insert((cx - x, cy + y));
    let ghost s3 = s2.insert((cx + x, cy - y));
    let ghost s4 = s3.insert((cx - x, cy - y));
    let ghost s5 = s4.insert((cx + y, cy + x));
    let ghost s6 = s5.insert((cx - y, cy + x));
    let ghost s7 = s6.insert((cx + y, cy - x));
    let ghost s8 = s7.insert((cx - y, cy - x));
    proof {
        lemma_paint_nothing(before, color);
        lemma_paint_one_more(before, s0, cx + x, cy + y, color);
        lemma_paint_one_more(before, s1, cx - x, cy + y, color);
        lemma_paint_one_more(before, s2, cx + x, cy - y, color);
        lemma_paint_one_more(before, s3, cx - x, cy - y, color);
        lemma_paint_one_more(before, s4, cx + y, cy + x, color);
        lemma_paint_one_more(before, s5, cx - y, cy + x, color);
        lemma_paint_one_more(before, s6, cx + y, cy - x, color);
        lemma_paint_one_more(before, s7, cx - y, cy - x, color);
        assert(s8 =~= octants(cx as int, cy as int, x as int, y as int));
    }
    display_at(image, cx + x, cy + y, color);
    display_at(image, cx - x, cy + y, color);
    display_at(image, cx + x, cy - y, color);
    display_at(image, cx - x, cy - y, color);
    display_at(image, cx + y, cy + x, color);
    display_at(image, cx - y, cy + x, color);
    display_at(image, cx + y, cy - x, color);
    display_at(image, cx - y, cy - x, color);
}

/// Circle tracer: writes `color` along the outline of the circle of radius
/// `radius` about `(cx, cy)`, one pixel wide, by the midpoint rule with
/// eightfold symmetry. A radius below one draws nothing.
pub fn draw_circle(image: &mut Image, cx: i32, cy: i32, radius: i32, color: Color)
    requires
        old(image).well_formed(),
    ensures
        final(image).well_formed(),
        final(image).columns() == old(image).columns(),
        final(image).rows() == old(image).rows(),
        final(image).pixels() == paint(
            old(image).pixels(),
            circle(cx as int, cy as int, radius as int),
            color,
        ),
{
    let ghost before = image.pixels();
    let r: i128 = radius as i128;
    let mut x: i128 = 0;
    let mut y: i128 = -r;
    proof {
        assert(circle_traced(cx as int, cy as int, r as int, 0) =~= Set::empty());
        lemma_paint_nothing(before, color);
    }
    while x < -y
        invariant
            r == radius,
            0 <= x,
            -r <= y,
            y == circle_entry(r as int, x as int),
            image.well_formed(),
            image.columns() == old(image).columns(),
            image.rows() == old(image).rows(),
            before == old(image).pixels(),
            image.pixels() == paint(
                before,
                circle_traced(cx as int, cy as int, r as int, x as int),
                color,
            ),
        decreases 2 - y - x,
    {
        proof {
            lemma_square_bound(x as int, r as int);
            lemma_square_bound(2 * y + 1, 2 * r + 1);
            lemma_square_bound(r as int, i32::MAX as int);
            lemma_square_bound(2 * r + 1, 0x1_0000_0000);
        }
        if 4 * (x * x) + (2 * y + 1) * (2 * y + 1) > 4 * (r * r) {
            y = y + 1;
        }
        assert(y == circle_row(r as int, x as int));
        plot_octants(image, cx as i128, cy as i128, x, y, color);
        proof {
            lemma_paint_twice(
                before,
                circle_traced(cx as int, cy as int, r as int, x as int),
                octants(cx as int, cy as int, x as int, y as int),
                color,
            );
            lemma_circle_next_column(cx as int, cy as int, r as int, x as int);
        }
        x = x + 1;
    }
    proof {
        let traced = circle_traced(cx as int, cy as int, r as int, x as int);
        let whole = circle(cx as int, cy as int, radius as int);
        assert forall|p: (int, int)| whole.contains(p) implies traced.contains(p) by {
            let k = choose|k: int| #[trigger] circle_column(cx as int, cy as int, r as int, k).contains(p);
            if k >= x {
                lemma_circle_entry_monotone(r as int, x as int, k);
            }
        }
        assert(traced =~= whole);
    }
}

/// The integer nearest to `n / d`, for a positive `d`; a half goes away from
/// zero.
pub open spec fn round_div(n: int, d: int) -> int {
    if n >= 0 {
        (2 * n + d) / (2 * d)
    } else {
        -((d - 2 * n) / (2 * d))
    }
}

/// Number of unit steps of the line tracer from `(x0, y0)` to `(x1, y1)`:
/// the larger of the two coordinate distances.
pub open spec fn line_steps(x0: int, y0: int, x1: int, y1: int) -> int {
    let across = if x1 >= x0 {
        x1 - x0
    } else {
        x0 - x1
    };
    let down = if y1 >= y0 {
        y1 - y0
    } else {
        y0 - y1
    };
    if across >= down {
        across
    } else {
        down
    }
}

/// Sample `i` of the line tracer: the point `i / steps` of the way from
/// `(x0, y0)` to `(x1, y1)`, each coordinate rounded to the nearest integer.
pub open spec fn line_sample(x0: int, y0: int, x1: int, y1: int, i: int) -> (int, int) {
    let steps = line_steps(x0, y0, x1, y1);
    if steps == 0 {
        (x0, y0)
    } else {
        (
            round_div(x0 * steps + i * (x1 - x0), steps),
            round_div(y0 * steps + i * (y1 - y0), steps),
        )
    }
}

/// The positions that the line tracer plots from `(x0, y0)` to `(x1, y1)`:
/// the samples `0` to `steps`, both ends included.
pub open spec fn line(x0: int, y0: int, x1: int, y1: int) -> Set<(int, int)> {
    Set::new(
        |p: (int, int)|
            exists|i: int|
                0 <= i <= line_steps(x0, y0, x1, y1) && p == #[trigger] line_sample(
                    x0,
                    y0,
                    x1,
                    y1,
                    i,
                ),
    )
}

/// The samples before sample `upto`.
spec fn line_traced(x0: int, y0: int, x1: int, y1: int, upto: int) -> Set<(int, int)> {
    Set::new(
        |p: (int, int)|
            exists|i: int| 0 <= i < upto && p == #[trigger] line_sample(x0, y0, x1, y1, i),
    )
}

/// Bounds on two numbers bound their product.
proof fn lemma_product_bound(a: int, b: int, bound_a: int, bound_b: int)
    by (nonlinear_arith)
    requires
        -bound_a <= a <= bound_a,
        -bound_b <= b <= bound_b,
    ensures
        -(bound_a * bound_b) <= a * b <= bound_a * bound_b,
{
}

/// A quotient without remainder is its own nearest integer.
pub proof fn lemma_round_div_exact(q: int, d: int)
    requires
        0 < d,
    ensures
        round_div(q * d, d) == q,
{
    if q >= 0 {
        assert(q * d >= 0) by (nonlinear_arith)
            requires
                q >= 0,
                d > 0,
        ;
        assert(2 * (q * d) + d == q * (2 * d) + d) by (nonlinear_arith);
        vstd::arithmetic::div_mod::lemma_fundamental_div_mod_converse(
            2 * (q * d) + d,
            2 * d,
            q,
            d,
        );
    } else {
        assert(q * d < 0) by (nonlinear_arith)
            requires
                q < 0,
                d > 0,
        ;
        assert(d - 2 * (q * d) == (-q) * (2 * d) + d) by (nonlinear_arith);
        vstd::arithmetic::div_mod::lemma_fundamental_div_mod_converse(
            d - 2 * (q * d),
            2 * d,
            -q,
            d,
        );
    }
}

/// Rounding keeps the order of the numerators.
pub proof fn lemma_round_div_monotone(n: int, m: int, d: int)
    requires
        0 < d,
        n <= m,
    ensures
        round_div(n, d) <= round_div(m, d),
{
    if n >= 0 {
        vstd::arithmetic::div_mod::lemma_div_is_ordered(2 * n + d, 2 * m + d, 2 * d);
    } else if m < 0 {
        vstd::arithmetic::div_mod::lemma_div_is_ordered(d - 2 * m, d - 2 * n, 2 * d);
    } else {
        vstd::arithmetic::div_mod::lemma_div_pos_is_pos(d - 2 * n, 2 * d);
        vstd::arithmetic::div_mod::lemma_div_pos_is_pos(2 * m + d, 2 * d);
    }
}

/// The integer nearest to `n / d`.
pub(crate) fn nearest(n: i128, d: i128) -> (q: i128)
    requires
        0 < d <= 0x1_0000_0000,
        -0x1_0000_0000_0000_0000_0000 <= n <= 0x1_0000_0000_0000_0000_0000,
    ensures
        q == round_div(n as int, d as int),
{
    if n >= 0 {
        (2 * n + d) / (2 * d)
    } else {
        -((d - 2 * n) / (2 * d))
    }
}

/// Line tracer: writes `color` at `steps + 1` samples from `(x0, y0)` to
/// `(x1, y1)`, where `steps` is the larger coordinate distance. Both ends are
/// plotted; two equal ends give one write.
pub fn draw_line(image: &mut Image, x0: i32, y0: i32, x1: i32, y1: i32, color: Color)
    requires
        old(image).well_formed(),
    ensures
        final(image).well_formed(),
        final(image).columns() == old(image).columns(),
        final(image).rows() == old(image).rows(),
        final(image).pixels() == paint(
            old(image).pixels(),
            line(x0 as int, y0 as int, x1 as int, y1 as int),
            color,
        ),
{
    let ghost before = image.pixels();
    let dx: i128 = x1 as i128 - x0 as i128;
    let dy: i128 = y1 as i128 - y0 as i128;
    let across: i128 = if dx >= 0 {
        dx
    } else {
        -dx
    };
    let down: i128 = if dy >= 0 {
        dy
    } else {
        -dy
    };
    let steps: i128 = if across >= down {
        across
    } else {
        down
    };
    assert(steps == line_steps(x0 as int, y0 as int, x1 as int, y1 as int));
    let mut i: i128 = 0;
    proof {
        assert(line_traced(x0 as int, y0 as int, x1 as int, y1 as int, 0) =~= Set::empty());
        lemma_paint_nothing(before, color);
    }
    while i <= steps
        invariant
            0 <= i <= steps + 1,
            0 <= steps <= 0xffff_ffff,
            steps == line_steps(x0 as int, y0 as int, x1 as int, y1 as int),
            dx == x1 - x0,
            dy == y1 - y0,
            image.well_formed(),
            image.columns() == old(image).columns(),
            image.rows() == old(image).rows(),
            before == old(image).pixels(),
            image.pixels() == paint(
                before,
                line_traced(x0 as int, y0 as int, x1 as int, y1 as int, i as int),
                color,
            ),
        decreases steps + 1 - i,
    {
        let ghost traced = line_traced(x0 as int, y0 as int, x1 as int, y1 as int, i as int);
        let ghost sample = line_sample(x0 as int, y0 as int, x1 as int, y1 as int, i as int);
        if steps == 0 {
            display_at(image, x0 as i128, y0 as i128, color);
        } else {
            proof {
                lemma_product_bound(x0 as int, steps as int, 0x8000_0000, 0xffff_ffff);
                lemma_product_bound(y0 as int, steps as int, 0x8000_0000, 0xffff_ffff);
                lemma_product_bound(i as int, dx as int, 0xffff_ffff, 0xffff_ffff);
                lemma_product_bound(i as int, dy as int, 0xffff_ffff, 0xffff_ffff);
            }
            let sx = nearest(x0 as i128 * steps + i * dx, steps);
            let sy = nearest(y0 as i128 * steps + i * dy, steps);
            display_at(image, sx, sy, color);
        }
        proof {
            lemma_paint_one_more(before, traced, sample.0, sample.1, color);
            let next = line_traced(x0 as int, y0 as int, x1 as int, y1 as int, i + 1);
            assert forall|p: (int, int)| next.contains(p) implies traced.insert(sample).contains(
                p,
            ) by {
                let k = choose|k: int|
                    0 <= k < i + 1 && p == #[trigger] line_sample(
                        x0 as int,
                        y0 as int,
                        x1 as int,
                        y1 as int,
                        k,
                    );
                if k < i {
                    assert(traced.contains(p));
                }
            }
            assert forall|p: (int, int)| traced.insert(sample).contains(p) implies next.contains(
                p,
            ) by {
                if p == sample {
                } else {
                    let k = choose|k: int|
                        0 <= k < i && p == #[trigger] line_sample(
                            x0 as int,
                            y0 as int,
                            x1 as int,
                            y1 as int,
                            k,
                        );
                    assert(k < i + 1);
                }
            }
            assert(traced.insert(sample) =~= next);
        }
        i = i + 1;
    }
    proof {
        assert(line_traced(x0 as int, y0 as int, x1 as int, y1 as int, steps + 1) =~= line(
            x0 as int,
            y0 as int,
            x1 as int,
            y1 as int,
        ));
    }
}

/// The line tracer skips neither end: its first sample is the start of the
/// line and its last sample is the end.
pub proof fn law_line_ends(x0: int, y0: int, x1: int, y1: int)
    ensures
        line_sample(x0, y0, x1, y1, 0) == (x0, y0),
        line_sample(x0, y0, x1, y1, line_steps(x0, y0, x1, y1)) == (x1, y1),
        line(x0, y0, x1, y1).contains((x0, y0)),
        line(x0, y0, x1, y1).contains((x1, y1)),
{
    let steps = line_steps(x0, y0, x1, y1);
    if steps > 0 {
        lemma_round_div_exact(x0, steps);
        lemma_round_div_exact(y0, steps);
        lemma_round_div_exact(x1, steps);
        lemma_round_div_exact(y1, steps);
        assert(x0 * steps + steps * (x1 - x0) == x1 * steps) by (nonlinear_arith);
        assert(y0 * steps + steps * (y1 - y0) == y1 * steps) by (nonlinear_arith);
        assert(x0 * steps + 0 * (x1 - x0) == x0 * steps);
        assert(y0 * steps + 0 * (y1 - y0) == y0 * steps);
    }
    assert(0 <= 0 <= steps);
    assert((x0, y0) == line_sample(x0, y0, x1, y1, 0));
    assert((x1, y1) == line_sample(x0, y0, x1, y1, steps));
}

/// A line from a position to itself is that one position, so drawing it
/// writes exactly one pixel.
pub proof fn law_line_of_one_point(pixels: Map<(int, int), Color>, x: int, y: int, color: Color)
    ensures
        line(x, y, x, y) == set![(x, y)],
        paint(pixels, line(x, y, x, y), color) == plot(pixels, x, y, color),
{
    assert((x, y) == line_sample(x, y, x, y, 0));
    assert(line(x, y, x, y) =~= set![(x, y)]);
    lemma_paint_nothing(pixels, color);
    lemma_paint_one_more(pixels, Set::empty(), x, y, color);
    assert(Set::<(int, int)>::empty().insert((x, y)) =~= set![(x, y)]);
}

/// A rounded sample of one coordinate lies between the two ends.
proof fn lemma_sample_between(from: int, to: int, steps: int, i: int)
    requires
        0 < steps,
        0 <= i <= steps,
    ensures
        from <= to ==> from <= round_div(from * steps + i * (to - from), steps) <= to,
        to <= from ==> to <= round_div(from * steps + i * (to - from), steps) <= from,
{
    let n = from * steps + i * (to - from);
    lemma_round_div_exact(from, steps);
    lemma_round_div_exact(to, steps);
    if from <= to {
        assert(from * steps <= n <= to * steps) by (nonlinear_arith)
            requires
                n == from * steps + i * (to - from),
                0 <= i <= steps,
                from <= to,
        ;
        lemma_round_div_monotone(from * steps, n, steps);
        lemma_round_div_monotone(n, to * steps, steps);
    } else {
        assert(to * steps <= n <= from * steps) by (nonlinear_arith)
            requires
                n == from * steps + i * (to - from),
                0 <= i <= steps,
                to <= from,
        ;
        lemma_round_div_monotone(to * steps, n, steps);
        lemma_round_div_monotone(n, from * steps, steps);
    }
}

/// The line tracer stays in the bounding box of the two ends.
pub proof fn law_line_in_box(x0: int, y0: int, x1: int, y1: int, p: (int, int))
    requires
        line(x0, y0, x1, y1).contains(p),
    ensures
        x0 <= x1 ==> x0 <= p.0 <= x1,
        x1 <= x0 ==> x1 <= p.0 <= x0,
        y0 <= y1 ==> y0 <= p.1 <= y1,
        y1 <= y0 ==> y1 <= p.1 <= y0,
{
    let steps = line_steps(x0, y0, x1, y1);
    let i = choose|i: int| 0 <= i <= steps && p == #[trigger] line_sample(x0, y0, x1, y1, i);
    if steps > 0 {
        lemma_sample_between(x0, x1, steps, i);
        lemma_sample_between(y0, y1, steps, i);
    }
}

} // verus!
