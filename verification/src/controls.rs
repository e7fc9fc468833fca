//! The key presses that the terminal interface acts on.

use vstd::prelude::*;

verus! {

/// Whether a key press asks the program to quit: `q` (with any modifier), or
/// `c` with Control held. `key` is the character of the key pressed, `None`
/// for a key that is no character.
pub fn quit_requested(key: Option<char>, control: bool) -> (quit: bool)
    ensures
        quit == (key == Some('q') || (key == Some('c') && control)),
{
    match key {
        Some(c) => c == 'q' || (c == 'c' && control),
        None => false,
    }
}

} // verus!
