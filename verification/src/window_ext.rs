//! Window behaviour configuration beyond what the window options offer.

use vstd::prelude::*;

verus! {

/// Window behavior configuration: whether the window is hidden from the
/// taskbar, lets mouse events through, and stays above other windows.
#[derive(Clone, Copy, Debug)]
pub struct WindowBehavior {
    skip_taskbar: bool,
    click_through: bool,
    always_on_top: bool,
}

impl WindowBehavior {
    /// Whether the window is hidden from the taskbar, as a mathematical value.
    pub closed spec fn skip_taskbar_spec(self) -> bool {
        self.skip_taskbar
    }

    /// Whether mouse events pass through the window, as a mathematical value.
    pub closed spec fn click_through_spec(self) -> bool {
        self.click_through
    }

    /// Whether the window stays on top, as a mathematical value.
    pub closed spec fn always_on_top_spec(self) -> bool {
        self.always_on_top
    }

    /// Create a new `WindowBehavior` with all options disabled.
    pub fn new() -> (b: Self)
        ensures
            !b.skip_taskbar_spec(),
            !b.click_through_spec(),
            !b.always_on_top_spec(),
    {
        WindowBehavior { skip_taskbar: false, click_through: false, always_on_top: false }
    }

    /// Whether the window is hidden from the taskbar, dock, and alt-tab.
    pub fn is_skip_taskbar(&self) -> (r: bool)
        ensures
            r == self.skip_taskbar_spec(),
    {
        self.skip_taskbar
    }

    /// Whether mouse events pass through the window.
    pub fn is_click_through(&self) -> (r: bool)
        ensures
            r == self.click_through_spec(),
    {
        self.click_through
    }

    /// Whether the window stays above other windows.
    pub fn is_always_on_top(&self) -> (r: bool)
        ensures
            r == self.always_on_top_spec(),
    {
        self.always_on_top
    }

    /// Set whether to hide the window from the taskbar.
    pub fn with_skip_taskbar(self, skip: bool) -> (b: Self)
        ensures
            b.skip_taskbar_spec() == skip,
            b.click_through_spec() == self.click_through_spec(),
            b.always_on_top_spec() == self.always_on_top_spec(),
    {
        WindowBehavior { skip_taskbar: skip, ..self }
    }

    /// Set whether mouse events pass through the window.
    pub fn with_click_through(self, click_through: bool) -> (b: Self)
        ensures
            b.click_through_spec() == click_through,
            b.skip_taskbar_spec() == self.skip_taskbar_spec(),
            b.always_on_top_spec() == self.always_on_top_spec(),
    {
        WindowBehavior { click_through, ..self }
    }

    /// Set whether the window should stay on top of other windows.
    pub fn with_always_on_top(self, on_top: bool) -> (b: Self)
        ensures
            b.always_on_top_spec() == on_top,
            b.skip_taskbar_spec() == self.skip_taskbar_spec(),
            b.click_through_spec() == self.click_through_spec(),
    {
        WindowBehavior { always_on_top: on_top, ..self }
    }
}

impl Default for WindowBehavior {
    fn default() -> (b: Self)
        ensures
            !b.skip_taskbar_spec(),
            !b.click_through_spec(),
            !b.always_on_top_spec(),
    {
        WindowBehavior::new()
    }
}

} // verus!
