//! Handler types the compositor registers with the display server, and the
//! state of the scripting objects that stand for the root window and the
//! mouse.
use vstd::prelude::*;

verus! {

/// Handles keyboard events.
#[derive(Debug, Clone, Copy, PartialEq, Eq, Structural)]
pub struct Keyboard;

/// Handles outputs being plugged in.
#[derive(Debug, Clone, Copy, PartialEq, Eq, Structural)]
pub struct OutputManager;

impl OutputManager {
    pub fn new() -> (r: Self)
        ensures
            r == OutputManager,
    {
        OutputManager
    }
}

/// State of the scripting object for the root window.
#[derive(Clone, Debug, PartialEq, Eq, Structural)]
pub struct RootState {
    pub dummy: i32,
}

impl Default for RootState {
    fn default() -> (r: Self)
        ensures
            r.dummy == 0,
    {
        RootState { dummy: 0 }
    }
}

/// State of the scripting object for the mouse.
#[derive(Clone, Debug, PartialEq, Eq, Structural)]
pub struct MouseState {
    pub dummy: i32,
}

impl Default for MouseState {
    fn default() -> (r: Self)
        ensures
            r.dummy == 0,
    {
        MouseState { dummy: 0 }
    }
}

} // verus!
