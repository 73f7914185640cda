//! Workspace-wide error type.

use vstd::prelude::*;

use crate::text::{chars_of, concat_chars, string_from_chars};

verus! {

/// The I/O error of the standard library, carried through unchanged.
#[verifier::external_type_specification]
#[verifier::external_body]
pub struct ExIoError(std::io::Error);

/// Why a decimal integer could not be parsed (the kinds `str::parse` reports).
#[derive(Debug, Clone, Copy, PartialEq, Eq, Structural)]
pub enum IntErrorKind {
    /// The text was empty.
    Empty,
    /// A character other than a decimal digit was found.
    InvalidDigit,
    /// The value does not fit in the target type.
    PosOverflow,
}

/// Errors that can surface across the server (configuration, I/O boundaries, statements).
#[derive(Debug)]
pub enum OpenSnowError {
    /// Invalid configuration, with a message.
    Config(String),
    /// An environment variable holds no valid integer.
    InvalidEnvVar { key: String, source: IntErrorKind },
    /// An I/O failure.
    Io(std::io::Error),
    /// The statement text is not accepted, with a message.
    InvalidStatement(String),
    /// A storage-layer failure, with a message.
    Storage(String),
    /// An execution-layer failure, with a message.
    Execution(String),
}

/// The text `str::parse` gives for an integer error.
pub open spec fn int_error_text(k: IntErrorKind) -> Seq<char> {
    match k {
        IntErrorKind::Empty => "cannot parse integer from empty string"@,
        IntErrorKind::InvalidDigit => "invalid digit found in string"@,
        IntErrorKind::PosOverflow => "number too large to fit in target type"@,
    }
}

/// The text of an error other than an I/O error.
pub open spec fn error_text(e: OpenSnowError) -> Seq<char> {
    match e {
        OpenSnowError::Config(m) => "configuration: "@ + m@,
        OpenSnowError::InvalidEnvVar { key, source } => "invalid environment variable `"@ + key@ + "`: "@
            + int_error_text(source),
        OpenSnowError::Io(_) => "I/O error: "@,
        OpenSnowError::InvalidStatement(m) => "invalid statement: "@ + m@,
        OpenSnowError::Storage(m) => "storage error: "@ + m@,
        OpenSnowError::Execution(m) => "execution error: "@ + m@,
    }
}

/// `std::io::Error`'s display text; it depends on the platform's messages.
#[verifier::external_body]
fn io_error_text(e: &std::io::Error) -> (r: String) {
    e.to_string()
}

fn joined(a: &str, b: &str) -> (r: String)
    ensures
        r@ == a@ + b@,
{
    string_from_chars(&concat_chars(&chars_of(a), &chars_of(b)))
}

impl OpenSnowError {
    /// The error's message: a prefix naming the kind of failure, then its details.
    /// For an I/O error the details are the platform's text.
    pub fn to_string(&self) -> (r: String)
        ensures
            !(self is Io) ==> r@ == error_text(*self),
            self is Io ==> r@.len() >= 11 && r@.take(11) == "I/O error: "@,
    {
        match self {
            OpenSnowError::Config(m) => joined("configuration: ", m.as_str()),
            OpenSnowError::InvalidEnvVar { key, source } => {
                let k = joined("invalid environment variable `", key.as_str());
                let k2 = joined(k.as_str(), "`: ");
                let t = match source {
                    IntErrorKind::Empty => "cannot parse integer from empty string",
                    IntErrorKind::InvalidDigit => "invalid digit found in string",
                    IntErrorKind::PosOverflow => "number too large to fit in target type",
                };
                joined(k2.as_str(), t)
            },
            OpenSnowError::Io(e) => {
                let d = io_error_text(e);
                let r = joined("I/O error: ", d.as_str());
                proof {
                    reveal_strlit("I/O error: ");
                    assert(r@.take(11) =~= "I/O error: "@);
                }
                r
            },
            OpenSnowError::InvalidStatement(m) => joined("invalid statement: ", m.as_str()),
            OpenSnowError::Storage(m) => joined("storage error: ", m.as_str()),
            OpenSnowError::Execution(m) => joined("execution error: ", m.as_str()),
        }
    }
}

} // verus!
