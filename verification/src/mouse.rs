//! Pointer state: pressed flag and last position.

use vstd::prelude::*;

verus! {

/// The mouse as the input layer sees it: whether the button is down and
/// the position it was last seen at.
pub struct Mouse {
    pressed: bool,
    x: i32,
    y: i32,
}

impl Mouse {
    /// Whether the button is currently pressed.
    pub closed spec fn spec_pressed(self) -> bool {
        self.pressed
    }

    /// The last recorded position.
    pub closed spec fn spec_pos(self) -> (i32, i32) {
        (self.x, self.y)
    }

    pub fn get_pressed(&self) -> (p: bool)
        ensures
            p == self.spec_pressed(),
    {
        self.pressed
    }

    pub fn set_pressed(&mut self, pressed: bool)
        ensures
            final(self).spec_pressed() == pressed,
            final(self).spec_pos() == old(self).spec_pos(),
    {
        self.pressed = pressed;
    }

    pub fn set_pos(&mut self, x: i32, y: i32)
        ensures
            final(self).spec_pos() == (x, y),
            final(self).spec_pressed() == old(self).spec_pressed(),
    {
        self.x = x;
        self.y = y;
    }

    pub fn get_pos(&self) -> (pos: (i32, i32))
        ensures
            pos == self.spec_pos(),
    {
        (self.x, self.y)
    }
}

impl Default for Mouse {
    /// A mouse that is not pressed, at the origin.
    fn default() -> (m: Mouse)
        ensures
            !m.spec_pressed(),
            m.spec_pos() == (0i32, 0i32),
    {
        Mouse { pressed: false, x: 0, y: 0 }
    }
}

} // verus!
