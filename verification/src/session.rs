//! One editing and animation session: the control polygon, the point being
//! dragged and the sequencer, moved on by one frame of input at a time.

use crate::editing::{add_or_drag, clear, edited, Pointer};
use crate::geometrical_shapes::{Color, Point};
use crate::sequencer::{Sequencer, SequencerView};
use vstd::prelude::*;

verus! {

/// What the host hands over once per frame: the pointer, the commands that
/// were given in this frame, and the microseconds since the frame before.
#[derive(Clone, Copy, Debug, PartialEq, Eq, Structural)]
pub struct Input {
    pub pointer: Pointer,
    pub confirm: bool,
    pub clear: bool,
    pub cancel: bool,
    pub dt: u64,
}

/// The state of a session.
#[derive(Debug)]
pub struct Session {
    pub points: Vec<Point>,
    pub dragging: Option<usize>,
    pub sequencer: Sequencer,
}

/// The mathematical content of a `Session`.
pub struct SessionView {
    pub points: Seq<Point>,
    pub dragging: Option<usize>,
    pub sequencer: SequencerView,
}

impl View for Session {
    type V = SessionView;

    open spec fn view(&self) -> SessionView {
        SessionView { points: self.points@, dragging: self.dragging, sequencer: self.sequencer@ }
    }
}

impl SessionView {
    /// The session after one frame.
    ///
    /// A frame that begins in `Drawing` mode edits the control polygon with
    /// the pointer, then starts the animation on `confirm`, then empties the
    /// polygon on `clear`. A frame that begins in `Animating` mode lets the
    /// time pass and then, on `cancel`, returns to `Drawing`; only together
    /// with `cancel` does `clear` empty the polygon there. The polygon is
    /// never edited while animating.
    pub open spec fn updated(self, input: Input, color: Color) -> SessionView {
        if self.sequencer.mode is Drawing {
            let (points, dragging) = edited(self.points, self.dragging, input.pointer, color);
            SessionView {
                points: if input.clear {
                    Seq::empty()
                } else {
                    points
                },
                dragging,
                sequencer: if input.confirm {
                    self.sequencer.started(points)
                } else {
                    self.sequencer
                },
            }
        } else {
            let ticked = self.sequencer.ticked(input.dt as nat);
            if input.cancel {
                SessionView {
                    points: if input.clear {
                        Seq::empty()
                    } else {
                        self.points
                    },
                    dragging: self.dragging,
                    sequencer: ticked.cancelled(),
                }
            } else {
                SessionView { sequencer: ticked, ..self }
            }
        }
    }
}

impl Session {
    /// An empty control polygon in `Drawing` mode.
    pub fn new() -> (fresh: Session)
        ensures
            fresh@.points == Seq::<Point>::empty(),
            fresh@.dragging is None,
            fresh@.sequencer == SequencerView::idle(),
    {
        Session { points: Vec::new(), dragging: None, sequencer: Sequencer::new() }
    }

    /// Moves the session on by one frame. New points take `color`.
    pub fn update(&mut self, input: &Input, color: Color)
        ensures
            final(self)@ == old(self)@.updated(*input, color),
            old(self)@.sequencer.well_formed() ==> final(self)@.sequencer.well_formed(),
    {
        match self.sequencer.mode {
            crate::display::Mode::Drawing => {
                add_or_drag(&mut self.points, &mut self.dragging, &input.pointer, color);
                if input.confirm {
                    self.sequencer.start(&self.points);
                }
                if input.clear {
                    clear(&mut self.points);
                }
            },
            crate::display::Mode::Animating => {
                self.sequencer.tick(input.dt);
                if input.cancel {
                    self.sequencer.cancel();
                    if input.clear {
                        clear(&mut self.points);
                    }
                }
            },
        }
    }
}

/// The control polygon rests while the animation runs: a frame that begins
/// and ends in `Animating` mode leaves it as it was, and a frame that begins
/// there changes it only by emptying it, on `clear` together with `cancel`.
pub proof fn law_polygon_rests_while_animating(session: SessionView, input: Input, color: Color)
    requires
        session.sequencer.mode is Animating,
    ensures
        session.updated(input, color).sequencer.mode is Animating ==> session.updated(
            input,
            color,
        ).points == session.points,
        session.updated(input, color).points == session.points || (input.cancel && input.clear
            && session.updated(input, color).points == Seq::<Point>::empty()),
        session.updated(input, color).dragging == session.dragging,
{
}

/// The levels of a running animation do not follow the control polygon: a
/// frame that begins and ends in `Animating` mode keeps them.
pub proof fn law_levels_rest_while_animating(session: SessionView, input: Input, color: Color)
    requires
        session.sequencer.mode is Animating,
        session.updated(input, color).sequencer.mode is Animating,
    ensures
        session.updated(input, color).sequencer.levels == session.sequencer.levels,
{
}

} // verus!
