//! Chaikin's corner cutting in exact arithmetic: every pass replaces each
//! edge of a polyline by its two quarter points, and counts the result in
//! units a quarter as long, so that no pass ever rounds. This holds of the
//! levels and of the lines of the animation step alike; a coordinate is
//! rounded only when a level or a line is brought to pixels to be drawn.

use crate::geometrical_shapes::{Color, Drawable, Line, Point};
use crate::rasterizer::{lemma_round_div_exact, lemma_round_div_monotone, nearest, round_div};
use vstd::prelude::*;

verus! {

/// The greatest depth of a level: one level deeper, the range of `i32` pixel
/// coordinates, counted in the length units of the level, no longer fits in
/// an `i64`.
pub const MAX_DEPTH: u32 = 16;

/// Number of length units per pixel at the given depth: `4^depth`.
pub open spec fn scale(depth: nat) -> int
    decreases depth,
{
    if depth == 0 {
        1
    } else {
        4 * scale((depth - 1) as nat)
    }
}

/// A vertex of a subdivision level, counted in the length units of its level.
#[derive(Clone, Copy, Debug, PartialEq, Eq, Structural)]
pub struct Vertex {
    pub x: i64,
    pub y: i64,
}

impl View for Vertex {
    type V = (int, int);

    open spec fn view(&self) -> (int, int) {
        (self.x as int, self.y as int)
    }
}

/// A polyline after `depth` cutting passes. Its coordinates are counted in
/// units of `4^-depth` pixel: the vertex `(x, y)` stands for the position
/// `(x / 4^depth, y / 4^depth)`.
#[derive(Debug)]
pub struct Level {
    pub vertices: Vec<Vertex>,
    pub depth: u32,
}

/// The mathematical content of a `Level`.
pub struct LevelView {
    pub vertices: Seq<(int, int)>,
    pub depth: nat,
}

impl View for Level {
    type V = LevelView;

    open spec fn view(&self) -> LevelView {
        LevelView {
            vertices: Seq::new(self.vertices@.len(), |i: int| self.vertices@[i]@),
            depth: self.depth as nat,
        }
    }
}

impl LevelView {
    /// Every vertex lies within the range of `i32` pixel coordinates, and
    /// the level is not deeper than `MAX_DEPTH`.
    pub open spec fn within_reach(self) -> bool {
        &&& self.depth <= MAX_DEPTH
        &&& forall|i: int|
            0 <= i < self.vertices.len() ==> {
                &&& i32::MIN * scale(self.depth) <= (#[trigger] self.vertices[i]).0 <= i32::MAX
                    * scale(self.depth)
                &&& i32::MIN * scale(self.depth) <= self.vertices[i].1 <= i32::MAX * scale(
                    self.depth,
                )
            }
    }

    /// Every vertex lies in the half-plane `a * x + b * y <= c`, with `x` and
    /// `y` in pixels.
    pub open spec fn inside(self, a: int, b: int, c: int) -> bool {
        forall|i: int|
            0 <= i < self.vertices.len() ==> a * (#[trigger] self.vertices[i]).0 + b
                * self.vertices[i].1 <= c * scale(self.depth)
    }
}

/// The point a quarter of the way from `from` to `to`, in units a quarter as
/// long as those of its arguments.
pub open spec fn quarter_point(from: (int, int), to: (int, int)) -> (int, int) {
    (3 * from.0 + to.0, 3 * from.1 + to.1)
}

/// One pass of corner cutting over a polyline: for every edge, in order, the
/// quarter point near its start and then the quarter point near its end.
/// The result is counted in units a quarter as long.
pub open spec fn cut_corners(vertices: Seq<(int, int)>) -> Seq<(int, int)> {
    Seq::new(
        (2 * (vertices.len() - 1)) as nat,
        |j: int|
            if j % 2 == 0 {
                quarter_point(vertices[j / 2], vertices[j / 2 + 1])
            } else {
                quarter_point(vertices[j / 2 + 1], vertices[j / 2])
            },
    )
}

/// One subdivision pass: a polyline of at most two vertices stays as it is,
/// a longer one has its corners cut and is one level deeper.
pub open spec fn subdivided(level: LevelView) -> LevelView {
    if level.vertices.len() <= 2 {
        level
    } else {
        LevelView { vertices: cut_corners(level.vertices), depth: level.depth + 1 }
    }
}

/// The polyline after `passes` subdivision passes.
pub open spec fn subdivided_times(level: LevelView, passes: nat) -> LevelView
    decreases passes,
{
    if passes == 0 {
        level
    } else {
        subdivided(subdivided_times(level, (passes - 1) as nat))
    }
}

/// A pixel has at least one length unit.
pub proof fn lemma_scale_positive(depth: nat)
    ensures
        1 <= scale(depth),
    decreases depth,
{
    if depth > 0 {
        lemma_scale_positive((depth - 1) as nat);
    }
}

/// A deeper level has no fewer length units per pixel.
pub proof fn lemma_scale_monotone(depth: nat, deeper: nat)
    requires
        depth <= deeper,
    ensures
        scale(depth) <= scale(deeper),
    decreases deeper,
{
    if depth < deeper {
        lemma_scale_monotone(depth, (deeper - 1) as nat);
        lemma_scale_positive((deeper - 1) as nat);
    }
}

/// At the greatest depth a pixel has `2^32` length units.
pub proof fn lemma_scale_limit(depth: nat)
    requires
        depth <= MAX_DEPTH,
    ensures
        1 <= scale(depth) <= 0x1_0000_0000,
{
    lemma_scale_positive(depth);
    lemma_scale_monotone(depth, 16);
    assert(scale(16) == 0x1_0000_0000) by {
        reveal_with_fuel(scale, 17);
    }
}

impl Level {
    /// The level can be cut and rendered without leaving the machine's
    /// integers.
    pub open spec fn well_formed(&self) -> bool {
        self@.within_reach()
    }

    /// The level of depth 0 whose vertices are the given points.
    pub fn from_points(points: &Vec<Point>) -> (level: Level)
        ensures
            level.well_formed(),
            level@.depth == 0,
            level@.vertices == Seq::new(
                points@.len(),
                |i: int| (points@[i].0 as int, points@[i].1 as int),
            ),
    {
        let mut vertices: Vec<Vertex> = Vec::new();
        let mut i: usize = 0;
        while i < points.len()
            invariant
                i <= points.len(),
                vertices.len() == i,
                forall|j: int|
                    0 <= j < i ==> (#[trigger] vertices@[j])@ == (
                        points@[j].0 as int,
                        points@[j].1 as int,
                    ),
            decreases points.len() - i,
        {
            vertices.push(Vertex { x: points[i].0 as i64, y: points[i].1 as i64 });
            i = i + 1;
        }
        let level = Level { vertices, depth: 0 };
        proof {
            assert(level@.vertices =~= Seq::new(
                points@.len(),
                |i: int| (points@[i].0 as int, points@[i].1 as int),
            ));
            assert(scale(0) == 1);
        }
        level
    }
}

/// One pass of Chaikin subdivision. A polyline of at most two vertices comes
/// back unchanged. Of a longer one every edge gives its two quarter points,
/// the one near the start of the edge first; the first and the last vertex
/// are not kept.
pub fn subdivide(level: &Level) -> (cut: Level)
    requires
        level.well_formed(),
        level.vertices.len() > 2 ==> level.depth < MAX_DEPTH,
    ensures
        cut@ == subdivided(level@),
        level.vertices.len() <= 2 ==> cut@ == level@,
        level.vertices.len() > 2 ==> cut.vertices.len() == 2 * (level.vertices.len() - 1),
        cut.well_formed(),
{
    let n = level.vertices.len();
    if n <= 2 {
        return copy_level(level);
    }
    let mut vertices: Vec<Vertex> = Vec::new();
    let ghost before = level@.vertices;
    let ghost unit = scale(level.depth as nat);
    proof {
        lemma_scale_limit(level.depth as nat);
        lemma_scale_limit((level.depth + 1) as nat);
    }
    let mut i: usize = 0;
    while i + 1 < n
        invariant
            n == level.vertices.len(),
            n > 2,
            i + 1 <= n,
            level.well_formed(),
            level.depth < MAX_DEPTH,
            before == level@.vertices,
            unit == scale(level.depth as nat),
            1 <= unit,
            4 * unit <= 0x1_0000_0000,
            vertices.len() == 2 * i,
            forall|j: int|
                0 <= j < 2 * i ==> (#[trigger] vertices@[j])@ == cut_corners(before)[j],
            forall|j: int|
                0 <= j < 2 * i ==> {
                    &&& i32::MIN * (4 * unit) <= (#[trigger] vertices@[j]).x <= i32::MAX * (4
                        * unit)
                    &&& i32::MIN * (4 * unit) <= vertices@[j].y <= i32::MAX * (4 * unit)
                },
        decreases n - i,
    {
        let a = level.vertices[i];
        let b = level.vertices[i + 1];
        proof {
            assert(before[i as int] == a@);
            assert(before[i + 1] == b@);
        }
        let near = Vertex { x: 3 * a.x + b.x, y: 3 * a.y + b.y };
        let far = Vertex { x: a.x + 3 * b.x, y: a.y + 3 * b.y };
        vertices.push(near);
        vertices.push(far);
        proof {
            assert(far@ == quarter_point(b@, a@));
            assert(near@ == quarter_point(a@, b@));
        }
        i = i + 1;
    }
    let cut = Level { vertices, depth: level.depth + 1 };
    proof {
        assert(cut@.vertices =~= cut_corners(before));
        assert(scale(cut@.depth) == 4 * unit);
    }
    cut
}

/// The levels of a subdivision run: level `k` is the start after `k` passes.
pub open spec fn subdivision_levels(start: LevelView, passes: nat) -> Seq<LevelView> {
    Seq::new(passes + 1, |k: int| subdivided_times(start, k as nat))
}

/// Every pass over a polyline of more than two vertices leaves more than
/// two vertices and adds one to the depth; a shorter polyline never changes.
pub proof fn lemma_subdivided_depth(level: LevelView, passes: nat)
    ensures
        subdivided_times(level, passes).vertices.len() > 2 <==> level.vertices.len() > 2,
        level.vertices.len() > 2 ==> subdivided_times(level, passes).depth == level.depth + passes,
        level.vertices.len() <= 2 ==> subdivided_times(level, passes) == level,
    decreases passes,
{
    if passes > 0 {
        lemma_subdivided_depth(level, (passes - 1) as nat);
    }
}

/// Runs `passes` subdivision passes and keeps every level: `passes + 1`
/// levels, the first equal to `start`, each later one the subdivision of the
/// level before it.
pub fn run_subdivision(start: &Level, passes: usize) -> (levels: Vec<Level>)
    requires
        start.well_formed(),
        start.vertices.len() > 2 ==> start.depth + passes <= MAX_DEPTH,
    ensures
        levels.len() == passes + 1,
        levels[0]@ == start@,
        forall|k: int| 0 <= k < passes ==> (#[trigger] levels[k + 1])@ == subdivided(levels[k]@),
        forall|k: int|
            0 <= k <= passes ==> (#[trigger] levels[k])@ == subdivided_times(start@, k as nat),
        forall|k: int| 0 <= k <= passes ==> (#[trigger] levels[k]).well_formed(),
{
    let mut levels: Vec<Level> = Vec::new();
    let mut current = copy_level(start);
    let mut done: usize = 0;
    while done < passes
        invariant
            done <= passes,
            start.well_formed(),
            start.vertices.len() > 2 ==> start.depth + passes <= MAX_DEPTH,
            levels.len() == done,
            current.well_formed(),
            current@ == subdivided_times(start@, done as nat),
            forall|k: int|
                0 <= k < done ==> (#[trigger] levels[k])@ == subdivided_times(start@, k as nat),
            forall|k: int| 0 <= k < done ==> (#[trigger] levels[k]).well_formed(),
        decreases passes - done,
    {
        proof {
            lemma_subdivided_depth(start@, done as nat);
        }
        let next = subdivide(&current);
        levels.push(current);
        current = next;
        done = done + 1;
    }
    levels.push(current);
    proof {
        assert forall|k: int| 0 <= k < passes implies (#[trigger] levels[k + 1])@ == subdivided(
            levels[k]@,
        ) by {
            assert(levels[k + 1]@ == subdivided_times(start@, (k + 1) as nat));
            assert(levels[k]@ == subdivided_times(start@, k as nat));
        }
    }
    levels
}

/// A copy of a level.
fn copy_level(level: &Level) -> (same: Level)
    ensures
        same@ == level@,
{
    let mut vertices: Vec<Vertex> = Vec::new();
    let mut i: usize = 0;
    while i < level.vertices.len()
        invariant
            i <= level.vertices.len(),
            vertices.len() == i,
            forall|j: int| 0 <= j < i ==> #[trigger] vertices@[j] == level.vertices@[j],
        decreases level.vertices.len() - i,
    {
        vertices.push(level.vertices[i]);
        i = i + 1;
    }
    let same = Level { vertices, depth: level.depth };
    assert(same@.vertices =~= level@.vertices);
    same
}

impl Level {
    /// Whether the level is well formed.
    pub fn is_well_formed(&self) -> (ok: bool)
        ensures
            ok == self.well_formed(),
    {
        if self.depth > MAX_DEPTH {
            return false;
        }
        let unit = unit_of(self.depth) as i128;
        let low: i128 = -2147483648 * unit;
        let high: i128 = 2147483647 * unit;
        let mut i: usize = 0;
        while i < self.vertices.len()
            invariant
                i <= self.vertices.len(),
                self.depth <= MAX_DEPTH,
                low == i32::MIN * scale(self.depth as nat),
                high == i32::MAX * scale(self.depth as nat),
                forall|j: int|
                    0 <= j < i ==> {
                        &&& low <= (#[trigger] self@.vertices[j]).0 <= high
                        &&& low <= self@.vertices[j].1 <= high
                    },
            decreases self.vertices.len() - i,
        {
            let v = self.vertices[i];
            assert(self@.vertices[i as int] == v@);
            if (v.x as i128) < low || (v.x as i128) > high || (v.y as i128) < low || (v.y as i128)
                > high {
                return false;
            }
            i = i + 1;
        }
        true
    }
}

/// One pass of Chaikin subdivision where it can be made: `None` if the
/// level is not well formed, or has more than two vertices and is at the
/// greatest depth already.
pub fn try_subdivide(level: &Level) -> (cut: Option<Level>)
    ensures
        cut is Some <==> level.well_formed() && (level.vertices.len() > 2 ==> level.depth
            < MAX_DEPTH),
        cut matches Some(made) ==> made@ == subdivided(level@) && made.well_formed(),
{
    if !level.is_well_formed() || (level.vertices.len() > 2 && level.depth >= MAX_DEPTH) {
        None
    } else {
        Some(subdivide(level))
    }
}

/// Runs `passes` subdivision passes where they can be made: `None` if the
/// start is not well formed, or has more than two vertices and would pass
/// the greatest depth.
pub fn try_run_subdivision(start: &Level, passes: usize) -> (levels: Option<Vec<Level>>)
    ensures
        levels is Some <==> start.well_formed() && (start.vertices.len() > 2 ==> start.depth
            + passes <= MAX_DEPTH),
        levels matches Some(made) ==> {
            &&& made.len() == passes + 1
            &&& forall|k: int|
                0 <= k <= passes ==> (#[trigger] made[k])@ == subdivided_times(start@, k as nat)
            &&& forall|k: int| 0 <= k <= passes ==> (#[trigger] made[k]).well_formed()
        },
{
    if !start.is_well_formed() {
        return None;
    }
    if start.vertices.len() > 2 && passes > (MAX_DEPTH - start.depth) as usize {
        return None;
    }
    Some(run_subdivision(start, passes))
}

impl LevelView {
    /// The pixel nearest to vertex `i`: each coordinate divided by the
    /// length units per pixel and rounded, a half going away from zero.
    pub open spec fn pixel(self, i: int) -> (int, int) {
        (
            round_div(self.vertices[i].0, scale(self.depth)),
            round_div(self.vertices[i].1, scale(self.depth)),
        )
    }
}

/// The control polygon as a level of depth 0.
pub open spec fn lifted(points: Seq<Point>) -> LevelView {
    LevelView {
        vertices: Seq::new(points.len(), |i: int| (points[i].0 as int, points[i].1 as int)),
        depth: 0,
    }
}

/// A level on the pixel lattice: every vertex at its nearest pixel, in the
/// given colour.
pub open spec fn rendered(level: LevelView, color: Color) -> Seq<Point> {
    Seq::new(
        level.vertices.len(),
        |i: int| Point(level.pixel(i).0 as i32, level.pixel(i).1 as i32, color),
    )
}

/// The segments between consecutive points, in the given colour.
pub open spec fn segments_of(points: Seq<Point>, color: Color) -> Seq<Line> {
    Seq::new(
        if points.len() == 0 {
            0
        } else {
            (points.len() - 1) as nat
        },
        |i: int| Line(points[i], points[i + 1], color),
    )
}

/// The pixel nearest to a vertex within reach has `i32` coordinates.
pub proof fn lemma_pixel_fits(level: LevelView, i: int)
    requires
        level.within_reach(),
        0 <= i < level.vertices.len(),
    ensures
        i32::MIN <= level.pixel(i).0 <= i32::MAX,
        i32::MIN <= level.pixel(i).1 <= i32::MAX,
{
    let unit = scale(level.depth);
    lemma_scale_positive(level.depth);
    let v = level.vertices[i];
    lemma_round_div_exact(i32::MIN as int, unit);
    lemma_round_div_exact(i32::MAX as int, unit);
    lemma_round_div_monotone(i32::MIN * unit, v.0, unit);
    lemma_round_div_monotone(v.0, i32::MAX * unit, unit);
    lemma_round_div_monotone(i32::MIN * unit, v.1, unit);
    lemma_round_div_monotone(v.1, i32::MAX * unit, unit);
}

/// Number of length units per pixel at the given depth.
fn unit_of(depth: u32) -> (unit: i64)
    requires
        depth <= MAX_DEPTH,
    ensures
        unit == scale(depth as nat),
        1 <= unit <= 0x1_0000_0000,
{
    let mut unit: i64 = 1;
    let mut k: u32 = 0;
    while k < depth
        invariant
            k <= depth <= MAX_DEPTH,
            unit == scale(k as nat),
        decreases depth - k,
    {
        proof {
            lemma_scale_limit((k + 1) as nat);
        }
        unit = 4 * unit;
        k = k + 1;
    }
    proof {
        lemma_scale_limit(depth as nat);
    }
    unit
}

impl Level {
    /// Rounds every vertex to its nearest pixel. This is the only place
    /// where a coordinate of a level is rounded.
    pub fn to_points(&self, color: Color) -> (points: Vec<Point>)
        requires
            self.well_formed(),
        ensures
            points@ == rendered(self@, color),
            forall|i: int|
                0 <= i < self.vertices.len() ==> {
                    &&& (#[trigger] points@[i]).0 == self@.pixel(i).0
                    &&& points@[i].1 == self@.pixel(i).1
                },
    {
        let unit = unit_of(self.depth);
        let mut points: Vec<Point> = Vec::new();
        let mut i: usize = 0;
        while i < self.vertices.len()
            invariant
                i <= self.vertices.len(),
                self.well_formed(),
                unit == scale(self.depth as nat),
                1 <= unit <= 0x1_0000_0000,
                points.len() == i,
                forall|j: int| 0 <= j < i ==> #[trigger] points@[j] == rendered(self@, color)[j],
                forall|j: int|
                    0 <= j < i ==> {
                        &&& (#[trigger] points@[j]).0 == self@.pixel(j).0
                        &&& points@[j].1 == self@.pixel(j).1
                    },
            decreases self.vertices.len() - i,
        {
            let v = self.vertices[i];
            proof {
                assert(self@.vertices[i as int] == v@);
                lemma_pixel_fits(self@, i as int);
            }
            let x = nearest(v.x as i128, unit as i128);
            let y = nearest(v.y as i128, unit as i128);
            points.push(Point(x as i32, y as i32, color));
            i = i + 1;
        }
        proof {
            assert(points@ =~= rendered(self@, color));
        }
        points
    }
}

/// The segments between consecutive points, each in the given colour.
pub fn segments(points: &Vec<Point>, color: Color) -> (lines: Vec<Line>)
    ensures
        lines@ == segments_of(points@, color),
{
    let mut lines: Vec<Line> = Vec::new();
    let mut i: usize = 0;
    while i + 1 < points.len()
        invariant
            points.len() == 0 ==> i == 0,
            points.len() > 0 ==> i + 1 <= points.len(),
            lines.len() == i,
            forall|j: int| 0 <= j < i ==> #[trigger] lines@[j] == segments_of(points@, color)[j],
        decreases points.len() - i,
    {
        lines.push(Line::new(&points[i], &points[i + 1], &color));
        i = i + 1;
    }
    proof {
        assert(lines@ =~= segments_of(points@, color));
    }
    lines
}

/// The counter after an animation step: it runs from 0 up to 7 and starts
/// over.
pub open spec fn next_count(count: u8) -> u8 {
    if count >= 7 {
        0
    } else {
        (count + 1) as u8
    }
}

/// The depth of the lines that an animation step has left, by their number
/// and by the counter after the step. At most one line is never cut and
/// stays in pixels. More lines were cut once in every step since the counter
/// stood at 0, and are counted in units of `4^-depth` pixel.
pub open spec fn depth_of_step(lines: nat, count: u8) -> nat {
    if lines <= 1 || count == 1 {
        0
    } else if count == 0 {
        7
    } else {
        (count - 1) as nat
    }
}

/// The quarter point of a line near its start, in units a quarter as long
/// as those of the line; it keeps the colour of the start.
pub open spec fn near_end(line: Line) -> Point {
    Point((3 * line.0.0 + line.1.0) as i32, (3 * line.0.1 + line.1.1) as i32, line.0.2)
}

/// The quarter point of a line near its end, in units a quarter as long as
/// those of the line; it keeps the colour of the end.
pub open spec fn far_end(line: Line) -> Point {
    Point((line.0.0 + 3 * line.1.0) as i32, (line.0.1 + 3 * line.1.1) as i32, line.1.2)
}

/// Both quarter points of the line, in units a quarter as long, have `i32`
/// coordinates.
pub open spec fn cut_fits(line: Line) -> bool {
    &&& i32::MIN <= 3 * line.0.0 + line.1.0 <= i32::MAX
    &&& i32::MIN <= 3 * line.0.1 + line.1.1 <= i32::MAX
    &&& i32::MIN <= line.0.0 + 3 * line.1.0 <= i32::MAX
    &&& i32::MIN <= line.0.1 + 3 * line.1.1 <= i32::MAX
}

/// A cutting pass over the lines stays within `i32` coordinates.
pub open spec fn can_cut(lines: Seq<Line>) -> bool {
    lines.len() > 1 ==> forall|i: int| 0 <= i < lines.len() ==> cut_fits(#[trigger] lines[i])
}

/// An animation step can be taken: the counter is one of 0 to 7, and at
/// every counter but 0 the lines can be cut.
pub open spec fn can_step(lines: Seq<Line>, count: u8) -> bool {
    count <= 7 && (count >= 1 ==> can_cut(lines))
}

/// One cutting pass over a sequence of lines, exact. At most one line stays
/// as it is, in the units it has. Of more, every line shrinks to the part
/// between its two quarter points and keeps its colour, and between every
/// two neighbours a new line in `color` joins the far end of the first to
/// the near end of the second: `2 * m - 1` lines for `m`, in units a
/// quarter as long.
pub open spec fn cut_lines(lines: Seq<Line>, color: Color) -> Seq<Line> {
    if lines.len() <= 1 {
        lines
    } else {
        Seq::new(
            (2 * lines.len() - 1) as nat,
            |j: int|
                if j % 2 == 0 {
                    Line(near_end(lines[j / 2]), far_end(lines[j / 2]), lines[j / 2].2)
                } else {
                    Line(far_end(lines[j / 2]), near_end(lines[j / 2 + 1]), color)
                },
        )
    }
}

/// The lines after an animation step: at counter 0 the segments of the
/// control polygon, in pixels; at every other counter one cutting pass over
/// the lines of the step before.
pub open spec fn stepped(lines: Seq<Line>, points: Seq<Point>, count: u8, color: Color) -> Seq<
    Line,
> {
    if count == 0 {
        segments_of(points, color)
    } else {
        cut_lines(lines, color)
    }
}

/// The lines form a chain: each begins where the one before it ends.
pub open spec fn is_chain(lines: Seq<Line>) -> bool {
    forall|i: int|
        0 <= i < lines.len() - 1 ==> {
            &&& lines[i].1.0 == (#[trigger] lines[i + 1]).0.0
            &&& lines[i].1.1 == lines[i + 1].0.1
        }
}

/// The polyline of a chain of lines: the start of the first line and the
/// end of every line.
pub open spec fn chain_points(lines: Seq<Line>) -> Seq<Point> {
    if lines.len() == 0 {
        Seq::empty()
    } else {
        Seq::new(
            lines.len() + 1,
            |i: int|
                if i == 0 {
                    lines[0].0
                } else {
                    lines[i - 1].1
                },
        )
    }
}

/// A line at its nearest pixels: every coordinate, counted in units of
/// `4^-depth` pixel, divided by the units per pixel and rounded, a half
/// going away from zero. The colours stay.
pub open spec fn pixel_line(line: Line, depth: nat) -> Line {
    Line(
        Point(
            round_div(line.0.0 as int, scale(depth)) as i32,
            round_div(line.0.1 as int, scale(depth)) as i32,
            line.0.2,
        ),
        Point(
            round_div(line.1.0 as int, scale(depth)) as i32,
            round_div(line.1.1 as int, scale(depth)) as i32,
            line.1.2,
        ),
        line.2,
    )
}

/// The coordinate a quarter of the way from `from` to `to`, in units a
/// quarter as long.
fn quarter(from: i32, to: i32) -> (q: i32)
    requires
        i32::MIN <= 3 * from + to <= i32::MAX,
    ensures
        q == 3 * from + to,
{
    (3 * (from as i64) + to as i64) as i32
}

/// Whether both quarter points of the line have `i32` coordinates.
fn line_fits(line: &Line) -> (ok: bool)
    ensures
        ok == cut_fits(*line),
{
    let ax = line.0.0 as i64;
    let ay = line.0.1 as i64;
    let bx = line.1.0 as i64;
    let by = line.1.1 as i64;
    let low: i64 = -2147483648;
    let high: i64 = 2147483647;
    low <= 3 * ax + bx && 3 * ax + bx <= high && low <= 3 * ay + by && 3 * ay + by <= high && low
        <= ax + 3 * bx && ax + 3 * bx <= high && low <= ay + 3 * by && ay + 3 * by <= high
}

/// Whether an animation step can be taken on these lines at this counter.
pub fn can_apply(lines: &Vec<Line>, ops_count: u8) -> (ok: bool)
    ensures
        ok == can_step(lines@, ops_count),
{
    if ops_count > 7 {
        return false;
    }
    if ops_count == 0 || lines.len() <= 1 {
        return true;
    }
    let mut i: usize = 0;
    while i < lines.len()
        invariant
            i <= lines.len(),
            1 < lines.len(),
            1 <= ops_count <= 7,
            forall|j: int| 0 <= j < i ==> cut_fits(#[trigger] lines@[j]),
        decreases lines.len() - i,
    {
        if !line_fits(&lines[i]) {
            assert(!cut_fits(lines@[i as int]));
            return false;
        }
        i = i + 1;
    }
    true
}

/// One animation step in a given colour. At counter 0 the lines become the
/// segments of the control polygon. At every other counter the lines of the
/// step before are cut once, exactly, and are from then on counted in units
/// a quarter as long: they keep their colour, and the new lines between
/// them take `color`. The counter advances, from 7 back to 0, so that eight
/// steps show the polygon and its seven subdivisions.
pub fn apply_chaikin_with(
    lines: &mut Vec<Line>,
    points: &Vec<Point>,
    ops_count: &mut u8,
    color: Color,
)
    requires
        can_step(old(lines)@, *old(ops_count)),
    ensures
        final(lines)@ == stepped(old(lines)@, points@, *old(ops_count), color),
        *final(ops_count) == next_count(*old(ops_count)),
{
    let count = *ops_count;
    *ops_count = if count == 7 {
        0
    } else {
        count + 1
    };
    if count == 0 {
        *lines = segments(points, color);
        return ;
    }
    let m = lines.len();
    if m <= 1 {
        return ;
    }
    let ghost before = lines@;
    let mut cut: Vec<Line> = Vec::new();
    let mut i: usize = 0;
    while i < m
        invariant
            m == lines.len(),
            m > 1,
            i <= m,
            lines@ == before,
            can_cut(before),
            i < m ==> cut.len() == 2 * i,
            i == m ==> cut.len() == 2 * m - 1,
            forall|j: int| 0 <= j < cut.len() ==> #[trigger] cut@[j] == cut_lines(before, color)[j],
        decreases m - i,
    {
        let line = lines[i];
        assert(cut_fits(before[i as int]));
        let near = Point(quarter(line.0.0, line.1.0), quarter(line.0.1, line.1.1), line.0.2);
        let far = Point(quarter(line.1.0, line.0.0), quarter(line.1.1, line.0.1), line.1.2);
        cut.push(Line(near, far, line.2));
        if i + 1 < m {
            let next = lines[i + 1];
            assert(cut_fits(before[i + 1]));
            let joint = Point(quarter(next.0.0, next.1.0), quarter(next.0.1, next.1.1), next.0.2);
            cut.push(Line(far, joint, color));
        }
        i = i + 1;
    }
    proof {
        assert(cut@ =~= cut_lines(before, color));
    }
    *lines = cut;
}

/// One animation step: as `apply_chaikin_with`, in a random opaque colour.
pub fn apply_chaikin(lines: &mut Vec<Line>, points: &Vec<Point>, ops_count: &mut u8)
    requires
        can_step(old(lines)@, *old(ops_count)),
    ensures
        exists|color: Color|
            {
                &&& 1 <= color.r < 255
                &&& 1 <= color.g < 255
                &&& 1 <= color.b < 255
                &&& color.a == 255
                &&& final(lines)@ == #[trigger] stepped(
                    old(lines)@,
                    points@,
                    *old(ops_count),
                    color,
                )
            },
        *final(ops_count) == next_count(*old(ops_count)),
{
    let color = Line::color();
    apply_chaikin_with(lines, points, ops_count, color);
}

/// One animation step where it can be taken: tests the counter and the
/// coordinates, takes the step of `apply_chaikin` if they allow it, and
/// leaves the lines and the counter alone if they do not.
pub fn try_apply_chaikin(lines: &mut Vec<Line>, points: &Vec<Point>, ops_count: &mut u8) -> (done:
    bool)
    ensures
        done == can_step(old(lines)@, *old(ops_count)),
        !done ==> final(lines)@ == old(lines)@ && *final(ops_count) == *old(ops_count),
        done ==> *final(ops_count) == next_count(*old(ops_count)),
        done ==> exists|color: Color|
            {
                &&& 1 <= color.r < 255
                &&& 1 <= color.g < 255
                &&& 1 <= color.b < 255
                &&& color.a == 255
                &&& final(lines)@ == #[trigger] stepped(
                    old(lines)@,
                    points@,
                    *old(ops_count),
                    color,
                )
            },
{
    if can_apply(lines, *ops_count) {
        apply_chaikin(lines, points, ops_count);
        true
    } else {
        false
    }
}

/// Rounding to pixels never leaves the range between zero and the number.
proof fn lemma_round_div_shrinks(n: int, d: int)
    requires
        1 <= d,
    ensures
        0 <= n ==> 0 <= round_div(n, d) <= n,
        n <= 0 ==> n <= round_div(n, d) <= 0,
{
    lemma_round_div_exact(0, d);
    lemma_round_div_exact(n, d);
    assert(0 <= n ==> n <= n * d) by (nonlinear_arith)
        requires
            1 <= d,
    ;
    assert(n <= 0 ==> n * d <= n) by (nonlinear_arith)
        requires
            1 <= d,
    ;
    if 0 <= n {
        lemma_round_div_monotone(0, n, d);
        lemma_round_div_monotone(n, n * d, d);
    } else {
        lemma_round_div_monotone(n, 0, d);
        lemma_round_div_monotone(n * d, n, d);
    }
}

/// One coordinate at its nearest pixel.
fn to_pixel(v: i32, unit: i64) -> (pixel: i32)
    requires
        1 <= unit <= 0x1_0000_0000,
    ensures
        pixel == round_div(v as int, unit as int),
{
    proof {
        lemma_round_div_shrinks(v as int, unit as int);
    }
    nearest(v as i128, unit as i128) as i32
}

/// The depth of the lines that an animation step has left, by their number
/// and by the counter after the step.
pub fn step_depth(lines: &Vec<Line>, ops_count: u8) -> (depth: u32)
    ensures
        depth == depth_of_step(lines@.len(), ops_count),
        ops_count <= 7 ==> depth <= 7,
{
    if lines.len() <= 1 || ops_count == 1 {
        0
    } else if ops_count == 0 {
        7
    } else {
        (ops_count - 1) as u32
    }
}

/// The lines of a level of the given depth at their nearest pixels, ready
/// to be drawn. This is the only place where a coordinate of a line is
/// rounded.
pub fn pixel_lines(lines: &Vec<Line>, depth: u32) -> (pixels: Vec<Line>)
    requires
        depth <= MAX_DEPTH,
    ensures
        pixels.len() == lines.len(),
        forall|i: int|
            0 <= i < lines.len() ==> #[trigger] pixels@[i] == pixel_line(lines@[i], depth as nat),
{
    let unit = unit_of(depth);
    let mut pixels: Vec<Line> = Vec::new();
    let mut i: usize = 0;
    while i < lines.len()
        invariant
            i <= lines.len(),
            unit == scale(depth as nat),
            1 <= unit <= 0x1_0000_0000,
            pixels.len() == i,
            forall|j: int|
                0 <= j < i ==> #[trigger] pixels@[j] == pixel_line(lines@[j], depth as nat),
        decreases lines.len() - i,
    {
        let line = lines[i];
        let from = Point(to_pixel(line.0.0, unit), to_pixel(line.0.1, unit), line.0.2);
        let to = Point(to_pixel(line.1.0, unit), to_pixel(line.1.1, unit), line.1.2);
        pixels.push(Line(from, to, line.2));
        i = i + 1;
    }
    pixels
}

/// A cutting pass over a chain of lines is one subdivision pass over its
/// polyline, exactly: the result is a chain again, and the coordinates of
/// its polyline are those of the subdivision of the polyline before, in
/// units a quarter as long.
pub proof fn law_cut_lines_subdivides(lines: Seq<Line>, color: Color)
    requires
        is_chain(lines),
        can_cut(lines),
    ensures
        is_chain(cut_lines(lines, color)),
        lifted(chain_points(cut_lines(lines, color))).vertices == subdivided(
            lifted(chain_points(lines)),
        ).vertices,
{
    let after = cut_lines(lines, color);
    let polyline = chain_points(lines);
    let level = subdivided(lifted(polyline));
    let shown = lifted(chain_points(after)).vertices;
    if lines.len() > 1 {
        assert forall|j: int| 0 <= j < shown.len() implies shown[j] == level.vertices[j] by {
            let k = j / 2;
            assert(cut_fits(lines[k]));
            assert(polyline[k].0 == lines[k].0.0 && polyline[k].1 == lines[k].0.1) by {
                if k > 0 {
                    assert(lines[k - 1].1.0 == lines[k - 1 + 1].0.0);
                }
            }
            assert(polyline[k + 1] == lines[k].1);
            if j > 0 {
                assert(chain_points(after)[j] == after[j - 1].1);
                if j % 2 == 0 {
                    assert(after[j - 1].1 == near_end(lines[k]));
                } else {
                    assert(after[j - 1].1 == far_end(lines[k]));
                }
            } else {
                assert(chain_points(after)[0] == near_end(lines[0]));
            }
        }
        assert(shown =~= level.vertices);
        assert forall|i: int| 0 <= i < after.len() - 1 implies {
            &&& after[i].1.0 == (#[trigger] after[i + 1]).0.0
            &&& after[i].1.1 == after[i + 1].0.1
        } by {
        }
    } else {
        assert(shown =~= level.vertices);
    }
}

/// A cutting pass stays in the bounding box of the lines it cuts: on each
/// axis, both new ends of a line lie between its old ends, counted in units
/// a quarter as long.
pub proof fn law_cut_ends_between(line: Line)
    requires
        cut_fits(line),
    ensures
        line.0.0 <= line.1.0 ==> 4 * line.0.0 <= near_end(line).0 <= far_end(line).0 <= 4
            * line.1.0,
        line.1.0 <= line.0.0 ==> 4 * line.1.0 <= far_end(line).0 <= near_end(line).0 <= 4
            * line.0.0,
        line.0.1 <= line.1.1 ==> 4 * line.0.1 <= near_end(line).1 <= far_end(line).1 <= 4
            * line.1.1,
        line.1.1 <= line.0.1 ==> 4 * line.1.1 <= far_end(line).1 <= near_end(line).1 <= 4
            * line.0.1,
{
}

/// A cutting pass never leaves the convex hull: a half-plane
/// `a * x + b * y <= c` that holds both ends of every line holds both ends
/// of every line after the pass, counted in units a quarter as long.
pub proof fn law_cut_lines_in_hull(lines: Seq<Line>, color: Color, a: int, b: int, c: int)
    requires
        lines.len() > 1,
        can_cut(lines),
        forall|i: int|
            0 <= i < lines.len() ==> {
                &&& a * (#[trigger] lines[i]).0.0 + b * lines[i].0.1 <= c
                &&& a * lines[i].1.0 + b * lines[i].1.1 <= c
            },
    ensures
        forall|j: int|
            0 <= j < cut_lines(lines, color).len() ==> {
                &&& a * (#[trigger] cut_lines(lines, color)[j]).0.0 + b * cut_lines(
                    lines,
                    color,
                )[j].0.1 <= 4 * c
                &&& a * cut_lines(lines, color)[j].1.0 + b * cut_lines(lines, color)[j].1.1 <= 4
                    * c
            },
{
    let after = cut_lines(lines, color);
    assert forall|i: int| 0 <= i < lines.len() implies {
        &&& a * (#[trigger] near_end(lines[i])).0 + b * near_end(lines[i]).1 <= 4 * c
        &&& a * far_end(lines[i]).0 + b * far_end(lines[i]).1 <= 4 * c
    } by {
        let from = lines[i].0;
        let to = lines[i].1;
        assert(cut_fits(lines[i]));
        assert(a * (3 * from.0 + to.0) + b * (3 * from.1 + to.1) <= 4 * c && a * (from.0 + 3
            * to.0) + b * (from.1 + 3 * to.1) <= 4 * c) by (nonlinear_arith)
            requires
                a * from.0 + b * from.1 <= c,
                a * to.0 + b * to.1 <= c,
        ;
    }
    assert forall|j: int| 0 <= j < after.len() implies {
        &&& a * (#[trigger] after[j]).0.0 + b * after[j].0.1 <= 4 * c
        &&& a * after[j].1.0 + b * after[j].1.1 <= 4 * c
    } by {
        let k = j / 2;
        assert(a * near_end(lines[k]).0 + b * near_end(lines[k]).1 <= 4 * c);
        if j % 2 == 1 {
            assert(a * near_end(lines[k + 1]).0 + b * near_end(lines[k + 1]).1 <= 4 * c);
        }
    }
}

/// The lines after the animation step at counter `count`, in a run of
/// steps that began at counter 0 on the given control polygon; step `k`
/// took the colour `colors[k]`.
pub open spec fn lines_of_step(points: Seq<Point>, colors: Seq<Color>, count: nat) -> Seq<Line>
    decreases count,
{
    if count == 0 {
        segments_of(points, colors[0])
    } else {
        cut_lines(lines_of_step(points, colors, (count - 1) as nat), colors[count as int])
    }
}

/// Every coordinate of the vertices, multiplied by `factor`, is an `i32`.
spec fn scaled_fits(vertices: Seq<(int, int)>, factor: int) -> bool {
    forall|i: int|
        0 <= i < vertices.len() ==> {
            &&& i32::MIN <= (#[trigger] vertices[i]).0 * factor <= i32::MAX
            &&& i32::MIN <= vertices[i].1 * factor <= i32::MAX
        }
}

/// If two coordinates fit in units a quarter as long, so do they in the
/// units they have, and so does their quarter point.
proof fn lemma_quarter_fits(from: int, to: int, factor: int)
    by (nonlinear_arith)
    requires
        1 <= factor,
        i32::MIN <= from * (4 * factor) <= i32::MAX,
        i32::MIN <= to * (4 * factor) <= i32::MAX,
    ensures
        i32::MIN <= (3 * from + to) * factor <= i32::MAX,
        i32::MIN <= 3 * from + to <= i32::MAX,
        i32::MIN <= from * factor <= i32::MAX,
{
}

/// The steps of a run are the levels of the control polygon, and every one
/// of them can be taken, as long as the last level fits.
proof fn lemma_steps_are_levels(points: Seq<Point>, colors: Seq<Color>, count: nat, rest: nat)
    requires
        points.len() >= 2,
        scaled_fits(lifted(points).vertices, scale(count + rest)),
    ensures
        is_chain(lines_of_step(points, colors, count)),
        lines_of_step(points, colors, count).len() >= 1,
        lifted(chain_points(lines_of_step(points, colors, count))).vertices == subdivided_times(
            lifted(points),
            count,
        ).vertices,
        scaled_fits(subdivided_times(lifted(points), count).vertices, scale(rest)),
        count > 0 ==> can_cut(lines_of_step(points, colors, (count - 1) as nat)),
    decreases count,
{
    let lines = lines_of_step(points, colors, count);
    let level = subdivided_times(lifted(points), count);
    lemma_scale_positive(rest);
    if count == 0 {
        assert(lifted(chain_points(lines)).vertices =~= level.vertices);
    } else {
        let before = lines_of_step(points, colors, (count - 1) as nat);
        let earlier = subdivided_times(lifted(points), (count - 1) as nat);
        let factor = scale(rest);
        assert(scale(rest + 1) == 4 * factor);
        assert(count - 1 + (rest + 1) == count + rest);
        lemma_steps_are_levels(points, colors, (count - 1) as nat, rest + 1);
        let polyline = chain_points(before);
        assert forall|i: int| 0 <= i < before.len() implies cut_fits(#[trigger] before[i]) by {
            assert(polyline[i + 1] == before[i].1);
            assert(polyline[i].0 == before[i].0.0 && polyline[i].1 == before[i].0.1) by {
                if i > 0 {
                    assert(before[i - 1].1.0 == before[i - 1 + 1].0.0);
                }
            }
            let from = lifted(polyline).vertices[i];
            let to = lifted(polyline).vertices[i + 1];
            assert(from == earlier.vertices[i] && to == earlier.vertices[i + 1]);
            lemma_quarter_fits(from.0, to.0, factor);
            lemma_quarter_fits(from.1, to.1, factor);
            lemma_quarter_fits(to.0, from.0, factor);
            lemma_quarter_fits(to.1, from.1, factor);
        }
        law_cut_lines_subdivides(before, colors[count as int]);
        assert(subdivided(lifted(polyline)).vertices == subdivided(earlier).vertices);
        assert forall|j: int| 0 <= j < level.vertices.len() implies {
            &&& i32::MIN <= (#[trigger] level.vertices[j]).0 * factor <= i32::MAX
            &&& i32::MIN <= level.vertices[j].1 * factor <= i32::MAX
        } by {
            if earlier.vertices.len() <= 2 {
                let v = earlier.vertices[j];
                lemma_quarter_fits(v.0, v.0, factor);
                lemma_quarter_fits(v.1, v.1, factor);
            } else {
                let from = earlier.vertices[j / 2];
                let to = earlier.vertices[j / 2 + 1];
                lemma_quarter_fits(from.0, to.0, factor);
                lemma_quarter_fits(from.1, to.1, factor);
                lemma_quarter_fits(to.0, from.0, factor);
                lemma_quarter_fits(to.1, from.1, factor);
            }
        }
    }
}

/// Eight steps show eight levels: the lines after the step at counter
/// `count`, in a run that began at counter 0, are a chain whose polyline is
/// the control polygon after `count` subdivision passes, exactly, in units
/// of `4^-count` pixel. Every step of the run can be taken if the
/// coordinates of that level are `i32` values.
pub proof fn law_steps_show_levels(points: Seq<Point>, colors: Seq<Color>, count: nat)
    requires
        points.len() >= 2,
        forall|i: int|
            0 <= i < points.len() ==> {
                &&& i32::MIN <= (#[trigger] points[i]).0 * scale(count) <= i32::MAX
                &&& i32::MIN <= points[i].1 * scale(count) <= i32::MAX
            },
    ensures
        is_chain(lines_of_step(points, colors, count)),
        lifted(chain_points(lines_of_step(points, colors, count))).vertices == subdivided_times(
            lifted(points),
            count,
        ).vertices,
        count > 0 ==> can_cut(lines_of_step(points, colors, (count - 1) as nat)),
{
    assert(scaled_fits(lifted(points).vertices, scale(count + 0))) by {
        assert forall|i: int| 0 <= i < lifted(points).vertices.len() implies {
            &&& i32::MIN <= (#[trigger] lifted(points).vertices[i]).0 * scale(count) <= i32::MAX
            &&& i32::MIN <= lifted(points).vertices[i].1 * scale(count) <= i32::MAX
        } by {
            assert(lifted(points).vertices[i] == (points[i].0 as int, points[i].1 as int));
        }
    }
    lemma_steps_are_levels(points, colors, count, 0);
}

/// Subdivision is a function of the polyline alone: two levels with the
/// same vertices and depth have the same subdivision, whichever vectors hold
/// them.
pub proof fn law_subdivide_deterministic(first: Level, second: Level)
    requires
        first@ == second@,
    ensures
        subdivided(first@) == subdivided(second@),
        forall|passes: nat|
            subdivision_levels(first@, passes) == subdivision_levels(second@, passes),
{
}

/// A subdivision pass leaves a polyline of at most two vertices unchanged
/// and gives `2 * (n - 1)` vertices for one of `n > 2`.
pub proof fn law_subdivided_length(level: LevelView)
    ensures
        level.vertices.len() <= 2 ==> subdivided(level) == level,
        level.vertices.len() > 2 ==> subdivided(level).vertices.len() == 2 * (level.vertices.len()
            - 1),
{
}

/// Corner cutting never leaves the convex hull: a half-plane
/// `a * x + b * y <= c` that holds every vertex of a polyline holds every
/// vertex of its subdivision.
pub proof fn law_subdivided_in_hull(level: LevelView, a: int, b: int, c: int)
    requires
        level.inside(a, b, c),
    ensures
        subdivided(level).inside(a, b, c),
{
    if level.vertices.len() > 2 {
        let cut = subdivided(level);
        let unit = scale(level.depth);
        assert(scale(cut.depth) == 4 * unit);
        assert forall|j: int| 0 <= j < cut.vertices.len() implies a * (#[trigger] cut.vertices[j]).0
            + b * cut.vertices[j].1 <= c * scale(cut.depth) by {
            let from = level.vertices[j / 2];
            let to = level.vertices[j / 2 + 1];
            assert(a * from.0 + b * from.1 <= c * unit);
            assert(a * to.0 + b * to.1 <= c * unit);
            assert(a * (3 * from.0 + to.0) + b * (3 * from.1 + to.1) <= c * (4 * unit)
                && a * (3 * to.0 + from.0) + b * (3 * to.1 + from.1) <= c * (4 * unit))
                by (nonlinear_arith)
                requires
                    a * from.0 + b * from.1 <= c * unit,
                    a * to.0 + b * to.1 <= c * unit,
            ;
        }
    }
}

/// Repeated corner cutting never leaves the convex hull of the polyline it
/// started from.
pub proof fn law_levels_in_hull(start: LevelView, passes: nat, a: int, b: int, c: int)
    requires
        start.inside(a, b, c),
    ensures
        subdivided_times(start, passes).inside(a, b, c),
    decreases passes,
{
    if passes > 0 {
        law_levels_in_hull(start, (passes - 1) as nat, a, b, c);
        law_subdivided_in_hull(subdivided_times(start, (passes - 1) as nat), a, b, c);
    }
}

} // verus!
