//! The animation sequencer: a machine with the two modes `Drawing` and
//! `Animating` that holds the subdivision levels of the control polygon and
//! steps through them in a loop, and the frame function of a whole session.

use crate::chaikin_algo::{
    lifted, run_subdivision, subdivided, subdivision_levels, Level, LevelView,
};
use crate::display::Mode;
use crate::geometrical_shapes::Point;
use vstd::prelude::*;

verus! {

/// Number of subdivision passes of an animation.
pub const PASSES: usize = 7;

/// Time for which one level is shown, in microseconds: half a second.
pub const STEP_INTERVAL: u64 = 500_000;

/// The state of the animation: the mode, the levels computed when the
/// animation started, the index of the level on show, and the microseconds
/// for which it has been shown.
#[derive(Debug)]
pub struct Sequencer {
    pub mode: Mode,
    pub levels: Vec<Level>,
    pub step: usize,
    pub timer: u64,
}

/// The mathematical content of a `Sequencer`.
pub struct SequencerView {
    pub mode: Mode,
    pub levels: Seq<LevelView>,
    pub step: nat,
    pub timer: nat,
}

impl View for Sequencer {
    type V = SequencerView;

    open spec fn view(&self) -> SequencerView {
        SequencerView {
            mode: self.mode,
            levels: Seq::new(self.levels@.len(), |k: int| self.levels@[k]@),
            step: self.step as nat,
            timer: self.timer as nat,
        }
    }
}

impl SequencerView {
    /// The state in which nothing is animated.
    pub open spec fn idle() -> SequencerView {
        SequencerView { mode: Mode::Drawing, levels: Seq::empty(), step: 0, timer: 0 }
    }

    /// While animating, the machine holds the control polygon and its
    /// `PASSES` subdivisions, each level the subdivision of the one before
    /// and fit to be rendered, and shows one of them.
    pub open spec fn well_formed(self) -> bool {
        self.mode is Animating ==> {
            &&& self.levels.len() == PASSES + 1
            &&& self.step < self.levels.len()
            &&& forall|k: int|
                0 <= k < PASSES ==> #[trigger] self.levels[k + 1] == subdivided(self.levels[k])
            &&& forall|k: int| 0 <= k <= PASSES ==> (#[trigger] self.levels[k]).within_reach()
        }
    }

    /// The commit signal: from `Drawing`, with more than one control point,
    /// the machine computes the levels and shows level 0; otherwise nothing
    /// changes.
    pub open spec fn started(self, polygon: Seq<Point>) -> SequencerView {
        if self.mode is Drawing && polygon.len() > 1 {
            SequencerView {
                mode: Mode::Animating,
                levels: subdivision_levels(lifted(polygon), PASSES as nat),
                step: 0,
                timer: 0,
            }
        } else {
            self
        }
    }

    /// A tick of `dt` microseconds: while animating, the time is added to
    /// the timer; once the timer reaches `STEP_INTERVAL` the next level is
    /// shown, the first one after the last, and the timer starts again. A
    /// tick advances by one level at most.
    pub open spec fn ticked(self, dt: nat) -> SequencerView {
        if self.mode is Animating && self.step < self.levels.len() {
            if self.timer + dt >= STEP_INTERVAL {
                SequencerView {
                    step: (self.step + 1) % self.levels.len(),
                    timer: 0,
                    ..self
                }
            } else {
                SequencerView { timer: self.timer + dt, ..self }
            }
        } else {
            self
        }
    }

    /// The state after `count` ticks of `dt` microseconds each.
    pub open spec fn ticked_times(self, dt: nat, count: nat) -> SequencerView
        decreases count,
    {
        if count == 0 {
            self
        } else {
            self.ticked_times(dt, (count - 1) as nat).ticked(dt)
        }
    }

    /// The cancel signal: from `Animating` back to `Drawing`; the levels,
    /// the index and the timer are discarded.
    pub open spec fn cancelled(self) -> SequencerView {
        if self.mode is Animating {
            SequencerView::idle()
        } else {
            self
        }
    }
}

impl Sequencer {
    /// A sequencer in `Drawing` mode.
    pub fn new() -> (fresh: Sequencer)
        ensures
            fresh@ == SequencerView::idle(),
            fresh@.well_formed(),
    {
        let fresh = Sequencer { mode: Mode::Drawing, levels: Vec::new(), step: 0, timer: 0 };
        assert(fresh@.levels =~= Seq::empty());
        fresh
    }

    /// Starts the animation of the control polygon, if the machine is in
    /// `Drawing` mode and the polygon has more than one point. Later
    /// changes of the polygon do not reach the levels computed here.
    pub fn start(&mut self, polygon: &Vec<Point>)
        ensures
            final(self)@ == old(self)@.started(polygon@),
            old(self)@.well_formed() ==> final(self)@.well_formed(),
            old(self)@.mode is Drawing && polygon.len() > 1 ==> {
                &&& final(self)@.mode is Animating
                &&& final(self)@.well_formed()
                &&& final(self)@.levels.len() == PASSES + 1
                &&& final(self)@.levels[0] == lifted(polygon@)
            },
    {
        match self.mode {
            Mode::Drawing => {
                if polygon.len() > 1 {
                    let first = Level::from_points(polygon);
                    assert(first@ == lifted(polygon@));
                    let levels = run_subdivision(&first, PASSES);
                    self.levels = levels;
                    self.step = 0;
                    self.timer = 0;
                    self.mode = Mode::Animating;
                    proof {
                        assert(self@.levels =~= subdivision_levels(
                            lifted(polygon@),
                            PASSES as nat,
                        ));
                    }
                }
            },
            Mode::Animating => {},
        }
    }

    /// Lets `dt` microseconds pass.
    pub fn tick(&mut self, dt: u64)
        ensures
            final(self)@ == old(self)@.ticked(dt as nat),
            old(self)@.well_formed() ==> final(self)@.well_formed(),
    {
        match self.mode {
            Mode::Animating => {
                if self.step < self.levels.len() {
                    if dt >= STEP_INTERVAL || self.timer >= STEP_INTERVAL - dt {
                        self.step = (self.step + 1) % self.levels.len();
                        self.timer = 0;
                    } else {
                        self.timer = self.timer + dt;
                    }
                }
            },
            Mode::Drawing => {},
        }
    }

    /// Leaves the animation.
    pub fn cancel(&mut self)
        ensures
            final(self)@ == old(self)@.cancelled(),
            final(self)@.well_formed(),
    {
        match self.mode {
            Mode::Animating => {
                self.mode = Mode::Drawing;
                self.levels = Vec::new();
                self.step = 0;
                self.timer = 0;
                assert(self@.levels =~= Seq::empty());
            },
            Mode::Drawing => {},
        }
    }

    /// The level on show, while animating.
    pub fn current(&self) -> (level: Option<&Level>)
        ensures
            match level {
                Some(shown) => {
                    &&& self.mode is Animating
                    &&& self.step < self.levels.len()
                    &&& *shown == self.levels@[self.step as int]
                    &&& shown@ == self@.levels[self.step as int]
                    &&& self@.well_formed() ==> shown.well_formed()
                },
                None => !(self.mode is Animating && self.step < self.levels.len()),
            },
    {
        match self.mode {
            Mode::Animating => {
                if self.step < self.levels.len() {
                    Some(&self.levels[self.step])
                } else {
                    None
                }
            },
            Mode::Drawing => None,
        }
    }
}

/// After `count` ticks that each reach the step interval, an animation has
/// moved on by `count` levels, counted round the loop; the levels themselves
/// stay as they are.
pub proof fn law_ticks_advance(state: SequencerView, dt: nat, count: nat)
    requires
        state.mode is Animating,
        state.step < state.levels.len(),
        dt >= STEP_INTERVAL,
    ensures
        state.ticked_times(dt, count).mode is Animating,
        state.ticked_times(dt, count).levels == state.levels,
        state.ticked_times(dt, count).step == (state.step + count) % state.levels.len(),
    decreases count,
{
    let n = state.levels.len() as int;
    if count == 0 {
        vstd::arithmetic::div_mod::lemma_small_mod(state.step, state.levels.len());
    } else {
        law_ticks_advance(state, dt, (count - 1) as nat);
        vstd::arithmetic::div_mod::lemma_add_mod_noop_right(1, state.step + count - 1, n);
        let before = state.ticked_times(dt, (count - 1) as nat);
        assert(before.step < n) by {
            vstd::arithmetic::div_mod::lemma_mod_bound(state.step + count - 1, n);
        }
        assert(before.ticked(dt).step == (1 + before.step as int) % n);
    }
}

/// An animation that has just started comes back to level 0 after as many
/// full ticks as it has levels, and not before: in one round of the loop it
/// shows level 0 exactly once more.
pub proof fn law_loop_returns_once(polygon: Seq<Point>, dt: nat, count: nat)
    requires
        polygon.len() > 1,
        dt >= STEP_INTERVAL,
        1 <= count <= PASSES + 1,
    ensures
        SequencerView::idle().started(polygon).ticked_times(dt, count).step == 0 <==> count
            == PASSES + 1,
{
    let state = SequencerView::idle().started(polygon);
    law_ticks_advance(state, dt, count);
    if count <= PASSES {
        vstd::arithmetic::div_mod::lemma_small_mod(count, 8);
    } else {
        vstd::arithmetic::div_mod::lemma_mod_self_0(8);
    }
}

} // verus!
