//! The library's error value: a plain message.

use vstd::prelude::*;

verus! {

/// An error carrying its description.
pub struct MethatronError {
    message: String,
}

impl MethatronError {
    /// The description's characters.
    pub closed spec fn message_view(&self) -> Seq<char> {
        self.message@
    }

    pub fn new(message: String) -> (e: MethatronError)
        ensures
            e.message_view() == message@,
    {
        MethatronError { message }
    }

    /// The description, for display at the boundary.
    pub fn message(&self) -> (m: &String)
        ensures
            m@ == self.message_view(),
    {
        &self.message
    }
}

} // verus!
