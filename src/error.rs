use vstd::prelude::*;

verus! {

/// An error with a message that says what went wrong.
pub struct Error {
    pub cause: String,
}

impl Error {
    /// An error with this message.
    pub fn new(message: String) -> (r: Error)
        ensures
            r.cause@ == message@,
    {
        Error { cause: message }
    }

    /// An error whose message is what `underlying` displays as.
    pub fn from<T: core::fmt::Display>(underlying: T) -> (r: Error)
        ensures
            vstd::string::to_string_from_display_ensures::<T>(&underlying, r.cause),
    {
        Error { cause: underlying.to_string() }
    }
}

} // verus!
