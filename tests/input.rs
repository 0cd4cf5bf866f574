use cosmic_edit::input::{cancel, InputSet, InputState, PointerEvent};
use cosmic_edit::render::Point;

#[test]
fn drag_start_captures_coordinate() {
    let mut s = InputState::new();
    let p = Point { x: 3, y: -4 };
    s.handle(PointerEvent::DragStart(p));
    assert_eq!(s, InputState::Dragging { initial_buffer_coord: p });
    s.handle(PointerEvent::DragMove(Point { x: 9, y: 9 }));
    assert_eq!(s, InputState::Dragging { initial_buffer_coord: p });
}

#[test]
fn hover_end_does_not_stop_drag() {
    let p = Point { x: 1, y: 1 };
    let mut s = InputState::Dragging { initial_buffer_coord: p };
    s.handle(PointerEvent::HoverEnd);
    assert_eq!(s, InputState::Dragging { initial_buffer_coord: p });
    s.handle(PointerEvent::HoverStart);
    assert_eq!(s, InputState::Dragging { initial_buffer_coord: p });
    s.handle(PointerEvent::DragEnd { pointer_over: true });
    assert_eq!(s, InputState::Hovering);
    let mut s = InputState::Dragging { initial_buffer_coord: p };
    s.handle(PointerEvent::DragEnd { pointer_over: false });
    assert_eq!(s, InputState::Idle);
}

#[test]
fn cancel_returns_to_idle_from_every_state() {
    for start in [
        InputState::Idle,
        InputState::Hovering,
        InputState::Dragging { initial_buffer_coord: Point { x: 0, y: 0 } },
    ] {
        let mut s = start;
        s.handle(PointerEvent::Cancel);
        assert_eq!(s, InputState::Idle);
        let mut s = start;
        s.cancel();
        assert_eq!(s, InputState::Idle);
        assert_eq!(cancel(Some(start)), Some(InputState::Idle));
    }
    assert_eq!(cancel(None), None);
}

#[test]
fn hover_start_and_end() {
    let mut s = InputState::Idle;
    s.handle(PointerEvent::HoverStart);
    assert_eq!(s, InputState::Hovering);
    s.handle(PointerEvent::HoverContinue);
    s.handle(PointerEvent::HoverStart);
    assert_eq!(s, InputState::Hovering);
    s.handle(PointerEvent::Click);
    assert_eq!(s, InputState::Hovering);
    s.handle(PointerEvent::HoverEnd);
    assert_eq!(s, InputState::Idle);
    let _ = InputSet;
}
