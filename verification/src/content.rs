//! Text payloads stored by address.

use vstd::prelude::*;

verus! {

/// A text payload; immutable once written to the store.
pub struct Content {
    text: String,
}

impl View for Content {
    type V = Seq<char>;

    closed spec fn view(&self) -> Seq<char> {
        self.text@
    }
}

impl Content {
    /// Wraps a text for storage.
    pub fn new(text: String) -> (c: Content)
        ensures
            c@ == text@,
    {
        Content { text }
    }

    /// The wrapped text.
    pub fn text(self) -> (t: String)
        ensures
            t@ == self@,
    {
        self.text
    }
}

} // verus!
