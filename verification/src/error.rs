use vstd::prelude::*;

verus! {

/// Catch-all error type carrying a human-readable message.
#[derive(Debug)]
pub struct AstroError {
    message: String,
}

impl View for AstroError {
    type V = Seq<char>;

    /// An error is abstractly its message text.
    closed spec fn view(&self) -> Seq<char> {
        self.message@
    }
}

impl AstroError {
    pub fn new(message: &str) -> (r: AstroError)
        ensures
            r@ == message@,
    {
        AstroError { message: message.to_owned() }
    }

    /// The message the error was created with.
    pub fn message(&self) -> (r: &str)
        ensures
            r@ == self@,
    {
        self.message.as_str()
    }
}

} // verus!
