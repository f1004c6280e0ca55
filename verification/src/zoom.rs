//! The interactive zoom controller: a state machine turning pointer
//! gestures into new viewports.
//!
//! The phase is a tagged state — one variant per phase, carrying only the
//! data valid in that phase — so at most one of an in-progress selection
//! and a pending zoom request ever exists. A zoom request is consumed
//! exactly once; a degenerate request (zero-area drag, or one collapsing
//! under the fixed-point resolution) produces no change instead of a
//! malformed viewport.

use vstd::prelude::*;
use crate::coords::{
    ComplexPoint, valid_bounds, valid_viewport, point_re, point_im, pixel_to_point,
    lemma_pixel_to_point_corners,
};

verus! {

/// The controller's phase, with the data valid in that phase alone.
#[derive(Clone, Copy, Debug)]
pub enum ControllerState {
    /// No gesture in progress.
    Idle,
    /// Pointer down: an aspect-locked selection from `start` to `end`.
    Selecting { start: (usize, usize), end: (usize, usize) },
    /// Pointer released: a zoom request awaiting processing.
    ZoomPending { start: (usize, usize), end: (usize, usize) },
    /// Reset requested: the initial viewport awaits restoration.
    Resetting,
}

/// An input to the controller.
pub enum ControllerEvent {
    /// Primary button pressed at a pixel position.
    PointerDown { pos: (usize, usize) },
    /// Pointer dragged to a pixel position.
    PointerMove { pos: (usize, usize) },
    /// Primary button released.
    PointerUp,
    /// The reset key.
    ResetKey,
    /// The surrounding loop has processed the pending request.
    Processed,
}

/// What the surrounding loop must do after a step.
pub enum ControllerAction {
    /// Nothing: keep the displayed buffer.
    Stay,
    /// Re-render with this viewport and replace the displayed buffer.
    Render { upper_left: ComplexPoint, lower_right: ComplexPoint },
}

/// Clamp `v` into `[lo, hi]`.
pub open spec fn clamp(v: int, lo: int, hi: int) -> int {
    if v < lo {
        lo
    } else if v > hi {
        hi
    } else {
        v
    }
}

/// The selection end after aspect locking: the larger of the two pointer
/// deltas rules, the other is derived from it by the image's width/height
/// ratio, directions are kept, and the result is clamped to the image.
pub open spec fn constrained_end(
    bounds: (usize, usize),
    start: (usize, usize),
    end: (usize, usize),
) -> (usize, usize) {
    let dx: int = if end.0 >= start.0 {
        end.0 - start.0
    } else {
        start.0 - end.0
    };
    let dy: int = if end.1 >= start.1 {
        end.1 - start.1
    } else {
        start.1 - end.1
    };
    let adx: int = if dx > dy {
        dx
    } else {
        dy * (bounds.0 as int) / (bounds.1 as int)
    };
    let ady: int = if dx > dy {
        dx * (bounds.1 as int) / (bounds.0 as int)
    } else {
        dy
    };
    let ex: int = if end.0 >= start.0 {
        start.0 + adx
    } else {
        start.0 - adx
    };
    let ey: int = if end.1 >= start.1 {
        start.1 + ady
    } else {
        start.1 - ady
    };
    (clamp(ex, 0, bounds.0 as int) as usize, clamp(ey, 0, bounds.1 as int) as usize)
}

/// The viewport a zoom rectangle maps to: its corners through the current
/// viewport, or `None` for a rectangle of zero area or one whose mapped
/// corners collapse under the fixed-point resolution.
pub open spec fn zoom_spec(
    bounds: (usize, usize),
    start: (usize, usize),
    end: (usize, usize),
    upper_left: ComplexPoint,
    lower_right: ComplexPoint,
) -> Option<(ComplexPoint, ComplexPoint)> {
    let minc = if start.0 <= end.0 {
        start.0
    } else {
        end.0
    };
    let maxc = if start.0 <= end.0 {
        end.0
    } else {
        start.0
    };
    let minr = if start.1 <= end.1 {
        start.1
    } else {
        end.1
    };
    let maxr = if start.1 <= end.1 {
        end.1
    } else {
        start.1
    };
    if minc == maxc || minr == maxr {
        None
    } else {
        let nul = ComplexPoint {
            re: point_re(bounds, (minc, minr), upper_left, lower_right) as i64,
            im: point_im(bounds, (minc, minr), upper_left, lower_right) as i64,
        };
        let nlr = ComplexPoint {
            re: point_re(bounds, (maxc, maxr), upper_left, lower_right) as i64,
            im: point_im(bounds, (maxc, maxr), upper_left, lower_right) as i64,
        };
        if nul.re < nlr.re && nul.im > nlr.im {
            Some((nul, nlr))
        } else {
            None
        }
    }
}

/// Derive the viewport of a finalized zoom rectangle against the current
/// viewport: exactly `zoom_spec`, and any viewport returned is valid.
pub fn zoom_viewport(
    bounds: (usize, usize),
    start: (usize, usize),
    end: (usize, usize),
    upper_left: ComplexPoint,
    lower_right: ComplexPoint,
) -> (r: Option<(ComplexPoint, ComplexPoint)>)
    requires
        valid_bounds(bounds),
        valid_viewport(upper_left, lower_right),
        start.0 <= bounds.0 && start.1 <= bounds.1,
        end.0 <= bounds.0 && end.1 <= bounds.1,
    ensures
        r == zoom_spec(bounds, start, end, upper_left, lower_right),
        r matches Some(v) ==> valid_viewport(v.0, v.1),
{
    let minc = if start.0 <= end.0 {
        start.0
    } else {
        end.0
    };
    let maxc = if start.0 <= end.0 {
        end.0
    } else {
        start.0
    };
    let minr = if start.1 <= end.1 {
        start.1
    } else {
        end.1
    };
    let maxr = if start.1 <= end.1 {
        end.1
    } else {
        start.1
    };
    if minc == maxc || minr == maxr {
        return None;
    }
    let nul = pixel_to_point(bounds, (minc, minr), upper_left, lower_right);
    let nlr = pixel_to_point(bounds, (maxc, maxr), upper_left, lower_right);
    if nul.re < nlr.re && nul.im > nlr.im {
        Some((nul, nlr))
    } else {
        None
    }
}

/// Idempotent full-frame zoom: the rectangle spanning the whole image maps
/// back to exactly the current viewport.
pub proof fn lemma_full_frame_zoom(
    bounds: (usize, usize),
    upper_left: ComplexPoint,
    lower_right: ComplexPoint,
)
    requires
        valid_bounds(bounds),
        valid_viewport(upper_left, lower_right),
    ensures
        zoom_spec(bounds, (0, 0), (bounds.0, bounds.1), upper_left, lower_right) == Some(
            (upper_left, lower_right),
        ),
{
    lemma_pixel_to_point_corners(bounds, upper_left, lower_right);
}

/// The interactive controller: the image bounds, the startup viewport kept
/// for reset, the current viewport, and the phase.
pub struct ViewportZoomController {
    pub bounds: (usize, usize),
    pub initial_upper_left: ComplexPoint,
    pub initial_lower_right: ComplexPoint,
    pub upper_left: ComplexPoint,
    pub lower_right: ComplexPoint,
    pub state: ControllerState,
}

/// Pixel positions carried by an event stay on the image.
pub open spec fn event_in_bounds(event: ControllerEvent, bounds: (usize, usize)) -> bool {
    match event {
        ControllerEvent::PointerDown { pos } => pos.0 <= bounds.0 && pos.1 <= bounds.1,
        ControllerEvent::PointerMove { pos } => pos.0 <= bounds.0 && pos.1 <= bounds.1,
        _ => true,
    }
}

/// The controller's exact transition table.
pub open spec fn next_state(pre: ViewportZoomController, event: ControllerEvent) -> (
    ViewportZoomController,
    ControllerAction,
) {
    match event {
        ControllerEvent::PointerDown { pos } => match pre.state {
            ControllerState::Idle => (
                ViewportZoomController {
                    state: ControllerState::Selecting { start: pos, end: pos },
                    ..pre
                },
                ControllerAction::Stay,
            ),
            _ => (pre, ControllerAction::Stay),
        },
        ControllerEvent::PointerMove { pos } => match pre.state {
            ControllerState::Selecting { start, end: _ } => (
                ViewportZoomController {
                    state: ControllerState::Selecting {
                        start,
                        end: constrained_end(pre.bounds, start, pos),
                    },
                    ..pre
                },
                ControllerAction::Stay,
            ),
            _ => (pre, ControllerAction::Stay),
        },
        ControllerEvent::PointerUp => match pre.state {
            ControllerState::Selecting { start, end } => (
                ViewportZoomController {
                    state: ControllerState::ZoomPending { start, end },
                    ..pre
                },
                ControllerAction::Stay,
            ),
            _ => (pre, ControllerAction::Stay),
        },
        ControllerEvent::ResetKey => (
            ViewportZoomController { state: ControllerState::Resetting, ..pre },
            ControllerAction::Stay,
        ),
        ControllerEvent::Processed => match pre.state {
            ControllerState::ZoomPending { start, end } => match zoom_spec(
                pre.bounds,
                start,
                end,
                pre.upper_left,
                pre.lower_right,
            ) {
                Some(v) => (
                    ViewportZoomController {
                        upper_left: v.0,
                        lower_right: v.1,
                        state: ControllerState::Idle,
                        ..pre
                    },
                    ControllerAction::Render { upper_left: v.0, lower_right: v.1 },
                ),
                None => (
                    ViewportZoomController { state: ControllerState::Idle, ..pre },
                    ControllerAction::Stay,
                ),
            },
            ControllerState::Resetting => (
                ViewportZoomController {
                    upper_left: pre.initial_upper_left,
                    lower_right: pre.initial_lower_right,
                    state: ControllerState::Idle,
                    ..pre
                },
                ControllerAction::Render {
                    upper_left: pre.initial_upper_left,
                    lower_right: pre.initial_lower_right,
                },
            ),
            _ => (pre, ControllerAction::Stay),
        },
    }
}

impl ViewportZoomController {
    /// Well-formed controller: bounds and both viewports valid, and any
    /// recorded pixel positions on the image.
    pub open spec fn wf(self) -> bool {
        &&& valid_bounds(self.bounds)
        &&& valid_viewport(self.initial_upper_left, self.initial_lower_right)
        &&& valid_viewport(self.upper_left, self.lower_right)
        &&& match self.state {
            ControllerState::Selecting { start, end } => start.0 <= self.bounds.0 && start.1
                <= self.bounds.1 && end.0 <= self.bounds.0 && end.1 <= self.bounds.1,
            ControllerState::ZoomPending { start, end } => start.0 <= self.bounds.0 && start.1
                <= self.bounds.1 && end.0 <= self.bounds.0 && end.1 <= self.bounds.1,
            _ => true,
        }
    }

    /// A controller at startup: idle, with the given viewport current and
    /// recorded for reset.
    pub fn new(
        bounds: (usize, usize),
        upper_left: ComplexPoint,
        lower_right: ComplexPoint,
    ) -> (r: ViewportZoomController)
        requires
            valid_bounds(bounds),
            valid_viewport(upper_left, lower_right),
        ensures
            r.wf(),
            r.bounds == bounds,
            r.initial_upper_left == upper_left,
            r.initial_lower_right == lower_right,
            r.upper_left == upper_left,
            r.lower_right == lower_right,
            r.state is Idle,
    {
        ViewportZoomController {
            bounds,
            initial_upper_left: upper_left,
            initial_lower_right: lower_right,
            upper_left,
            lower_right,
            state: ControllerState::Idle,
        }
    }

    /// Feed one event: the controller moves exactly as `next_state` says,
    /// stays well-formed, and hands back the action the loop must perform.
    /// A render action always carries a valid viewport, equal to the
    /// controller's new current one.
    pub fn step(&mut self, event: ControllerEvent) -> (action: ControllerAction)
        requires
            old(self).wf(),
            event_in_bounds(event, old(self).bounds),
        ensures
            (*final(self), action) == next_state(*old(self), event),
            final(self).wf(),
            action matches ControllerAction::Render { upper_left, lower_right } ==> {
                &&& valid_viewport(upper_left, lower_right)
                &&& upper_left == final(self).upper_left
                &&& lower_right == final(self).lower_right
            },
    {
        match event {
            ControllerEvent::PointerDown { pos } => {
                if matches!(self.state, ControllerState::Idle) {
                    self.state = ControllerState::Selecting { start: pos, end: pos };
                }
                ControllerAction::Stay
            },
            ControllerEvent::PointerMove { pos } => {
                let s = self.state;
                match s {
                    ControllerState::Selecting { start, end: _ } => {
                        let end = constrain_end(self.bounds, start, pos);
                        self.state = ControllerState::Selecting { start, end };
                        ControllerAction::Stay
                    },
                    _ => ControllerAction::Stay,
                }
            },
            ControllerEvent::PointerUp => {
                let s = self.state;
                match s {
                    ControllerState::Selecting { start, end } => {
                        self.state = ControllerState::ZoomPending { start, end };
                        ControllerAction::Stay
                    },
                    _ => ControllerAction::Stay,
                }
            },
            ControllerEvent::ResetKey => {
                self.state = ControllerState::Resetting;
                ControllerAction::Stay
            },
            ControllerEvent::Processed => {
                let s = self.state;
                match s {
                    ControllerState::ZoomPending { start, end } => {
                        match zoom_viewport(
                            self.bounds,
                            start,
                            end,
                            self.upper_left,
                            self.lower_right,
                        ) {
                            Some(v) => {
                                self.upper_left = v.0;
                                self.lower_right = v.1;
                                self.state = ControllerState::Idle;
                                ControllerAction::Render { upper_left: v.0, lower_right: v.1 }
                            },
                            None => {
                                self.state = ControllerState::Idle;
                                ControllerAction::Stay
                            },
                        }
                    },
                    ControllerState::Resetting => {
                        self.upper_left = self.initial_upper_left;
                        self.lower_right = self.initial_lower_right;
                        self.state = ControllerState::Idle;
                        ControllerAction::Render {
                            upper_left: self.upper_left,
                            lower_right: self.lower_right,
                        }
                    },
                    _ => ControllerAction::Stay,
                }
            },
        }
    }
}

/// Compute the aspect-locked selection end: exactly `constrained_end`.
fn constrain_end(bounds: (usize, usize), start: (usize, usize), pos: (usize, usize)) -> (r: (
    usize,
    usize,
))
    requires
        valid_bounds(bounds),
        start.0 <= bounds.0 && start.1 <= bounds.1,
        pos.0 <= bounds.0 && pos.1 <= bounds.1,
    ensures
        r == constrained_end(bounds, start, pos),
        r.0 <= bounds.0 && r.1 <= bounds.1,
{
    let dx: u64 = if pos.0 >= start.0 {
        (pos.0 - start.0) as u64
    } else {
        (start.0 - pos.0) as u64
    };
    let dy: u64 = if pos.1 >= start.1 {
        (pos.1 - start.1) as u64
    } else {
        (start.1 - pos.1) as u64
    };
    proof {
        assert(dy * bounds.0 <= 1000000 * 1000000) by (nonlinear_arith)
            requires
                0 <= dy <= 1000000,
                0 <= bounds.0 <= 1000000,
        ;
        assert(dx * bounds.1 <= 1000000 * 1000000) by (nonlinear_arith)
            requires
                0 <= dx <= 1000000,
                0 <= bounds.1 <= 1000000,
        ;
    }
    let adx: u64 = if dx > dy {
        dx
    } else {
        dy * (bounds.0 as u64) / (bounds.1 as u64)
    };
    let ady: u64 = if dx > dy {
        dx * (bounds.1 as u64) / (bounds.0 as u64)
    } else {
        dy
    };
    let w: u64 = bounds.0 as u64;
    let h: u64 = bounds.1 as u64;
    let ex: u64 = if pos.0 >= start.0 {
        let t = (start.0 as u64) + adx;
        if t > w {
            w
        } else {
            t
        }
    } else {
        if adx >= (start.0 as u64) {
            0
        } else {
            (start.0 as u64) - adx
        }
    };
    let ey: u64 = if pos.1 >= start.1 {
        let t = (start.1 as u64) + ady;
        if t > h {
            h
        } else {
            t
        }
    } else {
        if ady >= (start.1 as u64) {
            0
        } else {
            (start.1 as u64) - ady
        }
    };
    (ex as usize, ey as usize)
}

} // verus!
