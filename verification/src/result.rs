//! The error that the library's operations report.

use vstd::prelude::*;

verus! {

/// A result whose error is a [`BoxedErr`].
pub type BoxedResult<T> = Result<T, BoxedErr>;

/// An error that carries a description and nothing else.
#[derive(Debug)]
pub struct BoxedErr {
    msg: String,
}

impl View for BoxedErr {
    type V = Seq<char>;

    /// The description.
    closed spec fn view(&self) -> Seq<char> {
        self.msg@
    }
}

impl Clone for BoxedErr {
    fn clone(&self) -> (r: Self)
        ensures
            r@ == self@,
    {
        BoxedErr { msg: self.msg.clone() }
    }
}

impl BoxedErr {
    /// The failure described by `msg`.
    pub fn with<T>(msg: &str) -> (r: BoxedResult<T>)
        ensures
            r matches Err(e) && e@ == msg@,
    {
        Err(BoxedErr { msg: msg.to_owned() })
    }

    /// The description that the error was made with.
    pub fn description(&self) -> (r: &str)
        ensures
            r@ == self@,
    {
        self.msg.as_str()
    }

    /// The description as an owned text, as the error displays.
    pub fn message(&self) -> (r: String)
        ensures
            r@ == self@,
    {
        self.msg.clone()
    }
}

} // verus!
