use vstd::prelude::*;
use vstd::string::StringExecFns;

verus! {

/// A type of the standard library that this crate's own code never inspects:
/// the `Io` variant of [`Error`] carries the underlying filesystem error
/// through the scan verbatim. Relies on `std::io::Error` only as an opaque
/// value; nothing is assumed about it.
#[verifier::external_type_specification]
#[verifier::external_body]
pub struct ExIoError(std::io::Error);

/// The two ways a scan can fail: an underlying filesystem failure, carried
/// verbatim, or a top-level result with no source files at all.
#[derive(Debug)]
pub enum Error {
    Io(std::io::Error),
    Empty,
}

impl Error {
    /// How a failed scan describes itself: an empty top-level result has the
    /// fixed description, an I/O failure renders the underlying error.
    pub fn message(&self) -> (r: String)
        ensures
            self is Empty ==> r@ == "no source files found"@,
    {
        match self {
            Error::Io(err) => io_error_message(err),
            Error::Empty => String::from_str("no source files found"),
        }
    }
}

/// Relies on the standard library's rendering of `std::io::Error` (its
/// `Display` impl); nothing is assumed of the text.
#[verifier::external_body]
fn io_error_message(err: &std::io::Error) -> (r: String) {
    err.to_string()
}

impl From<std::io::Error> for Error {
    fn from(err: std::io::Error) -> (r: Self)
        ensures
            r == Error::Io(err),
    {
        Error::Io(err)
    }
}

impl vstd::std_specs::convert::FromSpecImpl<std::io::Error> for Error {
    open spec fn obeys_from_spec() -> bool {
        true
    }

    open spec fn from_spec(err: std::io::Error) -> Error {
        Error::Io(err)
    }
}

} // verus!
