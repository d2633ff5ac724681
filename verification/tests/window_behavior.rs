use gpui_base::window_ext::WindowBehavior;

#[test]
fn default_behavior_is_all_disabled() {
    let b = WindowBehavior::new();
    assert!(!b.is_skip_taskbar());
    assert!(!b.is_click_through());
    assert!(!b.is_always_on_top());
}

#[test]
fn builder_flags_roundtrip() {
    let b = WindowBehavior::new()
        .with_skip_taskbar(true)
        .with_click_through(true)
        .with_always_on_top(true);
    assert!(b.is_skip_taskbar());
    assert!(b.is_click_through());
    assert!(b.is_always_on_top());
}

#[test]
fn builder_can_disable_individually() {
    let b = WindowBehavior::new()
        .with_skip_taskbar(true)
        .with_click_through(false);
    assert!(b.is_skip_taskbar());
    assert!(!b.is_click_through());
    assert!(!b.is_always_on_top());
}

#[test]
fn default_matches_new() {
    let b = WindowBehavior::default();
    assert!(!b.is_skip_taskbar() && !b.is_click_through() && !b.is_always_on_top());
    let off = b.with_always_on_top(true).with_always_on_top(false);
    assert!(!off.is_always_on_top());
    let mixed = WindowBehavior::new().with_click_through(true);
    assert!(mixed.is_click_through() && !mixed.is_skip_taskbar() && !mixed.is_always_on_top());
}
