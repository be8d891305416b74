//! Errors of the codec and of the sockets.

use vstd::prelude::*;
use vstd::string::*;

use crate::text::io_error_text;

verus! {

/// `std::io::Error`, taken as opaque.
#[verifier::external_type_specification]
#[verifier::external_body]
pub struct ExIoError(std::io::Error);

/// Errors from codec and socket operations. Any error leaves the connection unusable: discard it.
#[derive(Debug)]
pub enum Error {
    /// Underlying I/O failure.
    Io(std::io::Error),
    /// The peer violated ZMTP or spoke an unsupported variant.
    Protocol(String),
}

/// Result alias for this crate.
pub type Result<T> = std::result::Result<T, Error>;

impl Error {
    /// Whether this is a protocol error with the message `msg`.
    pub open spec fn says(self, msg: Seq<char>) -> bool {
        self matches Error::Protocol(m) && m@ == msg
    }

    /// The error as one line of text: `io error: ` or `protocol error: `, and what went wrong.
    ///
    /// The words for an I/O failure come from the operating system and are not fixed here.
    pub fn to_string(&self) -> (s: String)
        ensures
            match *self {
                Error::Protocol(m) => s@ == "protocol error: "@ + m@,
                Error::Io(_) => "io error: "@.is_prefix_of(s@),
            },
    {
        match self {
            Error::Io(e) => {
                let s = io_failure(io_error_text(e).as_str());
                assert("io error: "@ =~= s@.subrange(0, "io error: "@.len() as int));
                s
            },
            Error::Protocol(m) => "protocol error: ".to_owned().concat(m.as_str()),
        }
    }
}

/// The line of text for an I/O failure that the operating system describes by `words`.
pub fn io_failure(words: &str) -> (s: String)
    ensures
        s@ == "io error: "@ + words@,
{
    "io error: ".to_owned().concat(words)
}

impl From<std::io::Error> for Error {
    fn from(e: std::io::Error) -> (r: Self) {
        Error::Io(e)
    }
}

impl vstd::std_specs::convert::FromSpecImpl<std::io::Error> for Error {
    open spec fn obeys_from_spec() -> bool {
        true
    }

    open spec fn from_spec(e: std::io::Error) -> Self {
        Error::Io(e)
    }
}

/// `std::io::Error::new`: the I/O failure of a stream that ended too early, in the words of `msg`.
/// The error is opaque here, so nothing is claimed of it.
#[verifier::external_body]
pub(crate) fn unexpected_eof(msg: &str) -> (e: std::io::Error) {
    std::io::Error::new(std::io::ErrorKind::UnexpectedEof, msg)
}

/// Fail with a protocol error that carries `msg`.
pub fn perr<T>(msg: String) -> (r: Result<T>)
    ensures
        r matches Err(e) && e.says(msg@),
{
    Err(Error::Protocol(msg))
}

} // verus!
