use chaikin::chaikin_algo::{run_subdivision, Level};
use chaikin::display::Mode;
use chaikin::editing::Pointer;
use chaikin::geometrical_shapes::{Color, Point};
use chaikin::sequencer::{Sequencer, PASSES, STEP_INTERVAL};
use chaikin::session::{Input, Session};

const WHITE: Color = Color { r: 255, g: 255, b: 255, a: 255 };

fn polygon(positions: &[(i32, i32)]) -> Vec<Point> {
    positions.iter().map(|&(x, y)| Point::new(x, y, WHITE)).collect()
}

fn idle(dt: u64) -> Input {
    Input {
        pointer: Pointer { x: 0, y: 0, pressed: false, down: false },
        confirm: false,
        clear: false,
        cancel: false,
        dt,
    }
}

fn press(x: i32, y: i32) -> Input {
    Input { pointer: Pointer { x, y, pressed: true, down: true }, ..idle(16_000) }
}

#[test]
fn new_sequencer_is_drawing() {
    let sequencer = Sequencer::new();
    assert_eq!(sequencer.mode, Mode::Drawing);
    assert!(sequencer.levels.is_empty());
    assert_eq!((sequencer.step, sequencer.timer), (0, 0));
    assert!(sequencer.current().is_none());
}

#[test]
fn start_computes_eight_levels_and_shows_the_polygon() {
    let points = polygon(&[(100, 100), (200, 50), (300, 100), (250, 200)]);
    let mut sequencer = Sequencer::new();
    sequencer.start(&points);
    assert_eq!(sequencer.mode, Mode::Animating);
    assert_eq!((PASSES, STEP_INTERVAL), (7, 500_000));
    assert_eq!(sequencer.levels.len(), 8);
    assert_eq!((sequencer.step, sequencer.timer), (0, 0));
    let expected = run_subdivision(&Level::from_points(&points), 7);
    for (level, wanted) in sequencer.levels.iter().zip(expected.iter()) {
        assert_eq!(level.depth, wanted.depth);
        assert_eq!(level.vertices, wanted.vertices);
    }
    let shown = sequencer.current().unwrap();
    assert_eq!(shown.depth, 0);
    assert_eq!(shown.vertices.len(), 4);
}

#[test]
fn start_is_refused_with_fewer_than_two_points() {
    for points in [polygon(&[]), polygon(&[(5, 5)])] {
        let mut sequencer = Sequencer::new();
        sequencer.start(&points);
        assert_eq!(sequencer.mode, Mode::Drawing);
        assert!(sequencer.levels.is_empty());
    }
}

#[test]
fn start_with_two_points_repeats_the_segment() {
    let mut sequencer = Sequencer::new();
    sequencer.start(&polygon(&[(5, 5), (9, 9)]));
    assert_eq!(sequencer.mode, Mode::Animating);
    assert_eq!(sequencer.levels.len(), 8);
    assert!(sequencer.levels.iter().all(|l| l.depth == 0 && l.vertices.len() == 2));
}

#[test]
fn start_while_animating_changes_nothing() {
    let mut sequencer = Sequencer::new();
    sequencer.start(&polygon(&[(0, 0), (10, 0), (10, 10)]));
    sequencer.tick(500_000);
    sequencer.tick(20_000);
    sequencer.start(&polygon(&[(7, 7), (8, 8)]));
    assert_eq!((sequencer.step, sequencer.timer), (1, 20_000));
    assert_eq!(sequencer.levels[0].vertices.len(), 3);
}

#[test]
fn animation_loop_returns_to_level_zero_once_in_eight_steps() {
    let mut sequencer = Sequencer::new();
    sequencer.start(&polygon(&[(0, 0), (10, 0), (10, 10)]));
    let mut steps = Vec::new();
    for _ in 0..8 {
        sequencer.tick(500_000);
        steps.push(sequencer.step);
    }
    assert_eq!(steps, vec![1, 2, 3, 4, 5, 6, 7, 0]);
    assert_eq!(steps.iter().filter(|&&s| s == 0).count(), 1);
    assert_eq!(sequencer.mode, Mode::Animating);
    sequencer.tick(500_000);
    assert_eq!(sequencer.step, 1);
}

#[test]
fn tick_adds_up_short_frames() {
    let mut sequencer = Sequencer::new();
    sequencer.start(&polygon(&[(0, 0), (10, 0), (10, 10)]));
    for frame in 1..=29u64 {
        sequencer.tick(16_667);
        assert_eq!((sequencer.step, sequencer.timer), (0, 16_667 * frame));
    }
    // 30 * 16667 = 500010 reaches the interval: the timer starts over at 0.
    sequencer.tick(16_667);
    assert_eq!((sequencer.step, sequencer.timer), (1, 0));
}

#[test]
fn tick_advances_at_the_interval_exactly() {
    let mut sequencer = Sequencer::new();
    sequencer.start(&polygon(&[(0, 0), (10, 0), (10, 10)]));
    sequencer.tick(499_999);
    assert_eq!((sequencer.step, sequencer.timer), (0, 499_999));
    sequencer.tick(1);
    assert_eq!((sequencer.step, sequencer.timer), (1, 0));
}

#[test]
fn tick_advances_one_level_however_long_the_frame() {
    let mut sequencer = Sequencer::new();
    sequencer.start(&polygon(&[(0, 0), (10, 0), (10, 10)]));
    sequencer.tick(5_000_000);
    assert_eq!((sequencer.step, sequencer.timer), (1, 0));
    sequencer.tick(u64::MAX);
    assert_eq!((sequencer.step, sequencer.timer), (2, 0));
    sequencer.tick(499_999);
    sequencer.tick(u64::MAX);
    assert_eq!((sequencer.step, sequencer.timer), (3, 0));
}

#[test]
fn tick_while_drawing_changes_nothing() {
    let mut sequencer = Sequencer::new();
    sequencer.tick(5_000_000);
    assert_eq!(sequencer.mode, Mode::Drawing);
    assert_eq!((sequencer.step, sequencer.timer), (0, 0));
}

#[test]
fn cancel_returns_to_drawing_and_discards_the_levels() {
    let mut sequencer = Sequencer::new();
    sequencer.start(&polygon(&[(0, 0), (10, 0), (10, 10)]));
    sequencer.tick(500_000);
    sequencer.tick(100_000);
    sequencer.cancel();
    assert_eq!(sequencer.mode, Mode::Drawing);
    assert!(sequencer.levels.is_empty());
    assert_eq!((sequencer.step, sequencer.timer), (0, 0));
    assert!(sequencer.current().is_none());
    sequencer.cancel();
    assert_eq!(sequencer.mode, Mode::Drawing);
}

#[test]
fn current_follows_the_step() {
    let mut sequencer = Sequencer::new();
    sequencer.start(&polygon(&[(0, 0), (10, 0), (10, 10)]));
    for k in 0..8u32 {
        assert_eq!(sequencer.current().unwrap().depth, k);
        sequencer.tick(500_000);
    }
    assert_eq!(sequencer.current().unwrap().depth, 0);
}

#[test]
fn session_draws_then_animates_then_returns() {
    let mut session = Session::new();
    assert!(session.points.is_empty());
    session.update(&press(100, 100), WHITE);
    session.update(&idle(16_000), WHITE);
    session.update(&press(200, 100), WHITE);
    session.update(&idle(16_000), WHITE);
    session.update(&press(200, 200), WHITE);
    session.update(&idle(16_000), WHITE);
    assert_eq!(session.points, polygon(&[(100, 100), (200, 100), (200, 200)]));
    assert_eq!(session.sequencer.mode, Mode::Drawing);

    session.update(&Input { confirm: true, ..idle(16_000) }, WHITE);
    assert_eq!(session.sequencer.mode, Mode::Animating);
    assert_eq!(session.sequencer.levels.len(), 8);
    assert_eq!((session.sequencer.step, session.sequencer.timer), (0, 0));

    // The polygon cannot be edited while animating.
    session.update(&press(5, 5), WHITE);
    assert_eq!(session.points.len(), 3);
    assert_eq!((session.sequencer.step, session.sequencer.timer), (0, 16_000));
    session.update(&Input { clear: true, ..idle(16_000) }, WHITE);
    assert_eq!(session.points.len(), 3);
    session.update(&idle(468_000), WHITE);
    assert_eq!((session.sequencer.step, session.sequencer.timer), (1, 0));

    session.update(&Input { cancel: true, ..idle(16_000) }, WHITE);
    assert_eq!(session.sequencer.mode, Mode::Drawing);
    assert_eq!(session.points, polygon(&[(100, 100), (200, 100), (200, 200)]));
    session.update(&press(300, 300), WHITE);
    assert_eq!(session.points.len(), 4);
}

#[test]
fn session_levels_do_not_follow_later_edits() {
    let mut session = Session::new();
    session.update(&press(0, 0), WHITE);
    session.update(&idle(16_000), WHITE);
    session.update(&press(100, 0), WHITE);
    session.update(&idle(16_000), WHITE);
    session.update(&press(100, 100), WHITE);
    session.update(&Input { confirm: true, clear: true, ..idle(16_000) }, WHITE);
    // The animation started from the polygon as it was, then the polygon was emptied.
    assert_eq!(session.sequencer.mode, Mode::Animating);
    assert!(session.points.is_empty());
    assert_eq!(session.sequencer.levels[0].vertices.len(), 3);
    assert_eq!(session.sequencer.levels[7].vertices.len(), 130);
}

#[test]
fn session_refuses_to_animate_one_point() {
    let mut session = Session::new();
    session.update(&press(0, 0), WHITE);
    session.update(&Input { confirm: true, ..idle(16_000) }, WHITE);
    assert_eq!(session.sequencer.mode, Mode::Drawing);
    assert_eq!(session.points.len(), 1);
}

#[test]
fn session_clears_while_drawing() {
    let mut session = Session::new();
    session.update(&press(0, 0), WHITE);
    session.update(&idle(16_000), WHITE);
    session.update(&press(50, 50), WHITE);
    session.update(&Input { clear: true, ..idle(16_000) }, WHITE);
    assert!(session.points.is_empty());
    assert_eq!(session.sequencer.mode, Mode::Drawing);
}

#[test]
fn session_cancel_with_clear_empties_the_polygon() {
    let mut session = Session::new();
    session.update(&press(0, 0), WHITE);
    session.update(&idle(16_000), WHITE);
    session.update(&press(50, 50), WHITE);
    session.update(&Input { confirm: true, ..idle(16_000) }, WHITE);
    session.update(&Input { cancel: true, clear: true, ..idle(16_000) }, WHITE);
    assert_eq!(session.sequencer.mode, Mode::Drawing);
    assert!(session.points.is_empty());
}

#[test]
fn session_drags_a_point() {
    let mut session = Session::new();
    session.update(&press(100, 100), WHITE);
    session.update(&idle(16_000), WHITE);
    session.update(&press(103, 104), WHITE);
    assert_eq!(session.dragging, Some(0));
    assert_eq!(session.points, polygon(&[(103, 104)]));
    let held = Input { pointer: Pointer { x: 150, y: 90, pressed: false, down: true }, ..idle(16_000) };
    session.update(&held, WHITE);
    assert_eq!(session.points, polygon(&[(150, 90)]));
    session.update(&idle(16_000), WHITE);
    assert_eq!(session.dragging, None);
}
