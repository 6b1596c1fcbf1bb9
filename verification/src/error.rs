//! The site's error: a message naming where something failed and what.
use crate::text::owned;
use vstd::prelude::*;

verus! {

/// An error of the site, held as its message.
pub struct Error(String);

impl View for Error {
    type V = Seq<char>;

    closed spec fn view(&self) -> Seq<char> {
        self.0@
    }
}

/// The message of an error raised in `fun` about `what`.
pub open spec fn error_text(fun: Seq<char>, what: Seq<char>) -> Seq<char> {
    fun + ": "@ + what
}

/// The error raised in `fun` about `what`.
pub fn err(fun: &str, what: &str) -> (e: Error)
    ensures
        e@ == error_text(fun@, what@),
{
    let mut s = owned(fun);
    s.append(": ");
    s.append(what);
    Error(s)
}

impl Error {
    /// The message.
    pub fn message(&self) -> (r: &str)
        ensures
            r@ == self@,
    {
        self.0.as_str()
    }
}

} // verus!
