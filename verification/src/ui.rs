//! The shell's prompt and input side; reading a line from the terminal is
//! done by the program around the library.
use vstd::prelude::*;

verus! {

/// The shell's user interface.
pub struct UI {}

impl UI {
    pub fn new() -> (r: UI) {
        UI {}
    }
}

} // verus!
