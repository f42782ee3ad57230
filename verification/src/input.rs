//! Errors raised by the input engine.

use vstd::prelude::*;

verus! {

/// The kinds of failure the engine distinguishes.
///
/// A bus failure is fatal during device setup and surfaced per poll cycle
/// afterwards; a parse failure rejects one line or record only; an index
/// failure rejects one output request; a channel failure means a background
/// input task is gone and the run cannot continue.
#[derive(Clone, Copy, Debug, PartialEq, Eq, Structural)]
pub enum ErrorKind {
    Bus,
    Parse,
    InvalidIndex,
    Channel,
}

/// An error of the input engine: a kind and a human-readable message.
#[derive(Clone, Debug)]
pub struct InputError {
    kind: ErrorKind,
    message: String,
}

/// Mathematical image of an [`InputError`].
pub struct InputErrorModel {
    pub kind: ErrorKind,
    pub message: Seq<char>,
}

impl View for InputError {
    type V = InputErrorModel;

    closed spec fn view(&self) -> InputErrorModel {
        InputErrorModel { kind: self.kind, message: self.message@ }
    }
}

impl InputError {
    /// A parse failure described by `message`.
    pub fn new(message: String) -> (r: InputError)
        ensures
            r@.kind == ErrorKind::Parse,
            r@.message == message@,
    {
        InputError { kind: ErrorKind::Parse, message }
    }

    /// A parse failure described by a borrowed message.
    pub fn from_str(message: &str) -> (r: InputError)
        ensures
            r@.kind == ErrorKind::Parse,
            r@.message == message@,
    {
        InputError::new(message.to_owned())
    }

    /// An error of the given kind.
    pub fn with_kind(kind: ErrorKind, message: String) -> (r: InputError)
        ensures
            r@.kind == kind,
            r@.message == message@,
    {
        InputError { kind, message }
    }

    /// The kind of this error.
    pub fn kind(&self) -> (r: ErrorKind)
        ensures
            r == self@.kind,
    {
        self.kind
    }

    /// The message of this error.
    pub fn message(&self) -> (r: &str)
        ensures
            r@ == self@.message,
    {
        self.message.as_str()
    }

    /// The error rendered for logs, as the `Display` form of an error type
    /// would be.
    pub fn display_string(&self) -> (r: String)
        ensures
            r@ == "InputError(\""@ + self@.message + "\")"@,
    {
        let mut out = String::new();
        out.append("InputError(\"");
        out.append(self.message.as_str());
        out.append("\")");
        proof {
            assert(out@ =~= "InputError(\""@ + self@.message + "\")"@);
        }
        out
    }
}

} // verus!
