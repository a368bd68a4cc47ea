//! State of the application's user interface windows.

use vstd::prelude::*;

verus! {

/// The location finder's text input.
pub struct LocationFinderState {
    pub input: String,
}

impl LocationFinderState {
    /// The input starts at the coordinates of Zürich.
    pub fn new() -> (s: Self)
        ensures
            s.input@ == "47.3769 8.5417"@,
    {
        LocationFinderState { input: String::from_str("47.3769 8.5417") }
    }
}

/// The state of the user interface.
pub struct UIState {
    pub loaction_finder: LocationFinderState,
}

impl UIState {
    pub fn new() -> (s: Self)
        ensures
            s.loaction_finder.input@ == "47.3769 8.5417"@,
    {
        UIState { loaction_finder: LocationFinderState::new() }
    }
}

/// The location finder window, which may be open or closed.
pub struct LocationFinderWindow {
    open: bool,
}

impl LocationFinderWindow {
    pub fn new(open: bool) -> (w: Self)
        ensures
            w.is_open() == open,
    {
        LocationFinderWindow { open }
    }

    /// Whether the window is open.
    pub closed spec fn is_open(&self) -> bool {
        self.open
    }

    /// Whether the window is open.
    pub fn open(&self) -> (r: bool)
        ensures
            r == self.is_open(),
    {
        self.open
    }

    /// Opens or closes the window.
    pub fn set_open(&mut self, open: bool)
        ensures
            final(self).is_open() == open,
    {
        self.open = open;
    }
}

/// The frame time graph window.
#[derive(Default)]
pub struct FpsGraph {
    pub open: bool,
}

/// Whether the user interface consumed an input event.
pub struct EventResponse {
    pub consumed: bool,
}

} // verus!
