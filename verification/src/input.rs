//! The buttons of the pointer, frame by frame.
//!
//! A button is in one of four states: 0 while it is up, 1 in the frame it
//! goes down, 2 while it is held, 3 in the frame it comes up.

use vstd::prelude::*;

verus! {

/// The states of the two buttons.
#[derive(Clone, Copy, Debug)]
pub struct Input {
    /// The state of the left button.
    pub mouse_left_state: u8,
    /// The state of the right button.
    pub mouse_rigth_state: u8,
}

/// The state that follows `state` when a frame has passed.
pub open spec fn next_state(state: u8) -> u8 {
    if state == 1 {
        2
    } else if state == 3 {
        1
    } else {
        0
    }
}

impl Default for Input {
    /// Both buttons up.
    fn default() -> (input: Input)
        ensures
            input.mouse_left_state == 0,
            input.mouse_rigth_state == 0,
    {
        Input { mouse_left_state: 0, mouse_rigth_state: 0 }
    }
}

impl Input {
    /// Lets a frame pass for both buttons.
    pub fn update(&mut self)
        ensures
            final(self).mouse_left_state == next_state(old(self).mouse_left_state),
            final(self).mouse_rigth_state == next_state(old(self).mouse_rigth_state),
    {
        self.mouse_left_state = step(self.mouse_left_state);
        self.mouse_rigth_state = step(self.mouse_rigth_state);
    }
}

/// The state that follows `state` when a frame has passed.
pub fn step(state: u8) -> (next: u8)
    ensures
        next == next_state(state),
{
    if state == 1 {
        2
    } else if state == 3 {
        1
    } else {
        0
    }
}

} // verus!
