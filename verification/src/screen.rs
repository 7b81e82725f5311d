//! The text of one frame, built in a buffer that is used again for the next.

use vstd::prelude::*;
use vstd::string::StringExecFns;

verus! {

/// The escape sequence that clears the terminal.
pub const CLEAR_SCREEN: &'static str = "\x1B[2J";

/// The escape sequence that moves the cursor to the top left corner.
pub const MOVE_CURSOR_TOP_LEFT: &'static str = "\x1B[H";

/// A frame buffer: the text that the terminal is to show next.
pub struct Screen {
    buff: String,
}

impl Screen {
    /// The text of the frame.
    pub closed spec fn text(&self) -> Seq<char> {
        self.buff@
    }

    /// Makes an empty frame. The terminal itself is the caller's to clear,
    /// with `CLEAR_SCREEN`.
    pub fn new() -> (screen: Screen)
        ensures
            screen.text() == Seq::<char>::empty(),
    {
        Screen { buff: String::new() }
    }

    /// Replaces the frame by what `fill_buff` writes into an empty buffer,
    /// followed by the sequence that takes the cursor back to the top left.
    pub fn update<F>(&mut self, fill_buff: F) where F: FnOnce(&mut String)
        requires
            forall|buff: &mut String| buff@.len() == 0 ==> call_requires(fill_buff, (buff,)),
        ensures
            exists|buff: &mut String|
                {
                    &&& buff@.len() == 0
                    &&& #[trigger] call_ensures(fill_buff, (buff,), ())
                    &&& final(self).text() == final(buff)@ + MOVE_CURSOR_TOP_LEFT@
                },
    {
        self.buff = String::new();
        fill_buff(&mut self.buff);
        self.buff.append(MOVE_CURSOR_TOP_LEFT);
    }

    /// The text of the frame, to be printed as it is.
    pub fn as_str(&self) -> (text: &str)
        ensures
            text@ == self.text(),
    {
        self.buff.as_str()
    }
}

} // verus!
