pub mod widgets;

use vstd::prelude::*;

verus! {

/// The keys that the terminal interface tells apart.
#[derive(Clone, Copy, Debug, PartialEq, Eq, Structural)]
pub enum Key {
    Esc,
    Other,
}

/// Whether a key event closes the interface: a press of Esc does.
pub fn closes_on(pressed: bool, key: Key) -> (close: bool)
    ensures
        close == (pressed && key == Key::Esc),
{
    pressed && match key {
        Key::Esc => true,
        Key::Other => false,
    }
}

} // verus!
