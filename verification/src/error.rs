use vstd::prelude::*;
use vstd::string::*;
use crate::text::{debug_quoted, quote};

verus! {

/// What can go wrong while reading recipes.
#[derive(Debug, Clone)]
pub enum Error {
    InvalidArgument(String),
}

/// The text that `{:?}` prints for an error with the message `m`.
pub open spec fn error_debug(m: Seq<char>) -> Seq<char> {
    "InvalidArgument("@ + debug_quoted(m) + ")"@
}

impl Error {
    /// The message that the error carries.
    pub open spec fn message(&self) -> Seq<char> {
        match self {
            Error::InvalidArgument(m) => m@,
        }
    }

    /// An `InvalidArgument` error that carries `message`.
    pub fn invalid_argument(message: String) -> (e: Error)
        ensures
            e.message() == message@,
    {
        Error::InvalidArgument(message)
    }

    /// The text shown to users: `invalid argument: ` and the message.
    pub fn describe(&self) -> (s: String)
        ensures
            s@ == "invalid argument: "@ + self.message(),
    {
        match self {
            Error::InvalidArgument(m) => String::from_str("invalid argument: ").concat(m.as_str()),
        }
    }

    /// The text that `{:?}` prints for the error: the variant's name and the
    /// quoted message in parentheses.
    pub fn debug_text(&self) -> (s: String)
        ensures
            s@ == error_debug(self.message()),
    {
        match self {
            Error::InvalidArgument(m) => {
                let q = quote(m.as_str());
                String::from_str("InvalidArgument(").concat(q.as_str()).concat(")")
            },
        }
    }
}

} // verus!
