//! The failure taxonomy of one script execution.

use vstd::prelude::*;

verus! {

/// Exactly one of these four kinds comes back when an execution does not
/// produce a decoded value; they are mutually exclusive and each carries its
/// diagnostic text.
#[derive(Debug, PartialEq)]
pub enum Error {
    /// Transport failure: the interpreter process could not be spawned, or a
    /// captured byte stream could not be decoded as text.
    Io(String),
    /// The parameters could not be serialized to the wire format; no process
    /// was spawned.
    Serialize(String),
    /// Standard output was not a single value of the wire format, or did not
    /// fit the shape the caller asked for.
    Deserialize(String),
    /// The script itself failed: the process exited non-zero, and the
    /// message is the UTF-8 decoding of its standard error.
    Script(String),
}

/// The diagnostic text an error carries, whatever its kind.
pub open spec fn spec_message(e: &Error) -> Seq<char> {
    match e {
        Error::Io(m) => m@,
        Error::Serialize(m) => m@,
        Error::Deserialize(m) => m@,
        Error::Script(m) => m@,
    }
}

impl Error {
    /// The diagnostic text, for display by the caller.
    pub fn message(&self) -> (r: &str)
        ensures
            r@ == spec_message(self),
    {
        match self {
            Error::Io(m) => m.as_str(),
            Error::Serialize(m) => m.as_str(),
            Error::Deserialize(m) => m.as_str(),
            Error::Script(m) => m.as_str(),
        }
    }
}

} // verus!
