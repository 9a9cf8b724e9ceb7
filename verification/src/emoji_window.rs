//! The window of emoticons the user can copy from.

use vstd::prelude::*;

verus! {

/// Whether the emoticon window is open.
pub struct EmojiWindow {
    pub visible: bool,
}

impl EmojiWindow {
    /// A closed window.
    pub fn new() -> (res: Self)
        ensures
            !res.visible,
    {
        Self { visible: false }
    }
}

} // verus!
