//! Renderable primitives available to the verified engine core.

pub mod scene_renderer;

use vstd::prelude::*;

verus! {

/// Struct for text.
pub struct Text {
    text: String,
}

impl Text {
    /// Creates a new text primitive.
    pub fn new(text: String) -> (t: Text)
        ensures
            t.text() == text@,
    {
        Text { text }
    }

    /// The characters of the text.
    pub closed spec fn text(&self) -> Seq<char> {
        self.text@
    }
}

} // verus!
