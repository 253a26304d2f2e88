use vstd::prelude::*;

verus! {

/// A confirmed key transition at one physical switch position, identified by
/// its (row, column) coordinate. Produced by the debouncer, rewritten by the
/// chord detector, and consumed by the layout engine within the same tick.
#[derive(Clone, Copy, PartialEq, Eq, Structural, Debug)]
pub enum KeyEvent {
    Press(u8, u8),
    Release(u8, u8),
}

impl KeyEvent {
    /// The coordinate the transition happened at.
    pub open spec fn coord_spec(self) -> (u8, u8) {
        match self {
            KeyEvent::Press(r, c) => (r, c),
            KeyEvent::Release(r, c) => (r, c),
        }
    }

    pub open spec fn is_press(self) -> bool {
        match self {
            KeyEvent::Press(_, _) => true,
            KeyEvent::Release(_, _) => false,
        }
    }

    pub fn coord(&self) -> (rc: (u8, u8))
        ensures
            rc == self.coord_spec(),
    {
        match self {
            KeyEvent::Press(r, c) => (*r, *c),
            KeyEvent::Release(r, c) => (*r, *c),
        }
    }
}

} // verus!
