use vstd::prelude::*;
use vstd::string::*;

verus! {

/// An owned error that can cross the runtime's concurrency boundaries.
///
/// Its view is the text of its message.
#[derive(Debug, Clone, PartialEq, Eq)]
pub struct MicrodeError {
    message: String,
}

impl View for MicrodeError {
    type V = Seq<char>;

    closed spec fn view(&self) -> Seq<char> {
        self.message@
    }
}

impl MicrodeError {
    /// Creates an error carrying `message`.
    pub fn new(message: &str) -> (error: Self)
        ensures
            error@ == message@,
    {
        MicrodeError { message: String::from_str(message) }
    }

    /// Creates an error that takes ownership of `message`.
    pub fn from_message(message: String) -> (error: Self)
        ensures
            error@ == message@,
    {
        MicrodeError { message }
    }

    /// The error's message, as `Display` would write it.
    pub fn to_string(&self) -> (message: String)
        ensures
            message@ == self@,
    {
        self.message.clone()
    }

    /// A copy of this error with the same message.
    pub fn duplicate(&self) -> (copy: Self)
        ensures
            copy@ == self@,
    {
        MicrodeError { message: self.message.clone() }
    }
}

} // verus!
