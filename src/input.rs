use vstd::prelude::*;

use crate::render::Point;

verus! {

/// Names the group of input handling steps, so that a host can order other
/// work around them.
#[derive(Clone, Copy, Debug, PartialEq, Eq, Hash)]
pub struct InputSet;

/// Pointer state of one widget, from least to most important.
#[derive(Clone, Copy, Debug, PartialEq, Eq)]
pub enum InputState {
    Idle,
    Hovering,
    /// A drag is under way; where it started, in buffer coordinates.
    Dragging { initial_buffer_coord: Point },
}

/// A pointer event delivered to one widget.
#[derive(Clone, Copy, Debug, PartialEq, Eq)]
pub enum PointerEvent {
    Click,
    /// A drag starts at this point, in buffer coordinates.
    DragStart(Point),
    /// A drag ends; whether the pointer is still over the widget.
    DragEnd { pointer_over: bool },
    DragMove(Point),
    HoverStart,
    HoverContinue,
    HoverEnd,
    Cancel,
}

/// The state after an event. A click or a move changes no state; hover
/// events do not interrupt a drag; a drag ends in hovering where the pointer
/// is still over the widget, else in idle; a cancel always returns to idle.
pub open spec fn next_state(s: InputState, e: PointerEvent) -> InputState {
    match e {
        PointerEvent::Click => s,
        PointerEvent::DragStart(p) => InputState::Dragging { initial_buffer_coord: p },
        PointerEvent::DragEnd { pointer_over } => if s is Dragging {
            if pointer_over {
                InputState::Hovering
            } else {
                InputState::Idle
            }
        } else {
            s
        },
        PointerEvent::DragMove(_) => s,
        PointerEvent::HoverStart => if s is Dragging {
            s
        } else {
            InputState::Hovering
        },
        PointerEvent::HoverContinue => s,
        PointerEvent::HoverEnd => if s is Hovering {
            InputState::Idle
        } else {
            s
        },
        PointerEvent::Cancel => InputState::Idle,
    }
}

impl InputState {
    pub fn new() -> (r: InputState)
        ensures
            r == InputState::Idle,
    {
        InputState::Idle
    }

    /// `Cancel` event handler
    pub fn cancel(&mut self)
        ensures
            *final(self) == InputState::Idle,
    {
        *self = InputState::Idle;
    }

    /// Moves to the state that `event` leads to.
    pub fn handle(&mut self, event: PointerEvent)
        ensures
            *final(self) == next_state(*old(self), event),
    {
        match event {
            PointerEvent::Click => {},
            PointerEvent::DragStart(p) => {
                *self = InputState::Dragging { initial_buffer_coord: p };
            },
            PointerEvent::DragEnd { pointer_over } => {
                if let InputState::Dragging { .. } = *self {
                    *self = if pointer_over {
                        InputState::Hovering
                    } else {
                        InputState::Idle
                    };
                }
            },
            PointerEvent::DragMove(_) => {},
            PointerEvent::HoverStart => {
                if let InputState::Dragging { .. } = *self {
                } else {
                    *self = InputState::Hovering;
                }
            },
            PointerEvent::HoverContinue => {},
            PointerEvent::HoverEnd => {
                if let InputState::Hovering = *self {
                    *self = InputState::Idle;
                }
            },
            PointerEvent::Cancel => self.cancel(),
        }
    }
}

/// Cancels the pointer state of a widget where it has one; a widget without
/// one ignores the event.
pub fn cancel(input_state: Option<InputState>) -> (r: Option<InputState>)
    ensures
        r == (match input_state {
            Some(_) => Some(InputState::Idle),
            None => None,
        }),
{
    match input_state {
        Some(mut s) => {
            s.cancel();
            Some(s)
        },
        None => None,
    }
}

/// From any state, a cancel leads to idle, and a drag start to a drag that
/// remembers where it started; hover ending during a drag leaves the drag.
pub proof fn lemma_state_machine(s: InputState, p: Point)
    ensures
        next_state(s, PointerEvent::Cancel) == InputState::Idle,
        next_state(s, PointerEvent::DragStart(p)) == (InputState::Dragging {
            initial_buffer_coord: p,
        }),
        s is Dragging ==> next_state(s, PointerEvent::HoverEnd) == s,
        s is Dragging ==> next_state(s, PointerEvent::HoverStart) == s,
{
}

} // verus!
