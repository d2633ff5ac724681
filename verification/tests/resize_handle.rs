use gpui_base::resize::{changed, HandleEdge, ResizeHandleState, SharedHandleState};

#[test]
fn a_listener_writes_its_progress_back_into_the_stored_state() {
    let stored = SharedHandleState::default();
    // What `paint` hands each mouse listener.
    let listener = stored.clone();

    assert!(listener.set(ResizeHandleState::Pressed));

    assert_eq!(stored.get(), ResizeHandleState::Pressed);
    assert!(stored.get().is_active());
}

#[test]
fn setting_the_state_it_already_has_asks_for_no_repaint() {
    let state = SharedHandleState::default();

    assert!(state.set(ResizeHandleState::Hovered));
    assert!(!state.set(ResizeHandleState::Hovered));
}

#[test]
fn only_a_held_handle_is_active() {
    assert!(!ResizeHandleState::Idle.is_active());
    assert!(!ResizeHandleState::Hovered.is_active());
    assert!(ResizeHandleState::Pressed.is_active());
    assert!(ResizeHandleState::Dragging.is_active());
}

#[test]
fn a_fresh_handle_is_idle_and_changes_are_reported() {
    let state = SharedHandleState::default();
    assert_eq!(state.get(), ResizeHandleState::Idle);
    assert_eq!(ResizeHandleState::default(), ResizeHandleState::Idle);
    assert!(changed(ResizeHandleState::Idle, ResizeHandleState::Dragging));
    assert!(!changed(ResizeHandleState::Dragging, ResizeHandleState::Dragging));
    assert!(state.set(ResizeHandleState::Dragging));
    assert!(state.set(ResizeHandleState::Idle));
    assert_ne!(HandleEdge::Leading, HandleEdge::Trailing);
}
