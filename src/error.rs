use vstd::prelude::*;

verus! {

/// The kinds of file system failure that the error mapping tells apart.
#[derive(Debug, Clone, Copy, PartialEq, Eq, Structural)]
pub enum IoKind {
    NotFound,
    PermissionDenied,
    Other,
}

/// What can stop a request before a response is built.
#[derive(Debug, Clone, Copy, PartialEq, Eq, Structural)]
pub enum Error {
    /// The file system refused: not found, permission denied, ...
    Io(IoKind),
    /// The HTTP method is neither `GET` nor `HEAD`.
    Method,
    /// The entry is neither a regular file nor a directory, or is not the
    /// kind the responder was built for.
    Typo,
    /// The request path does not lie under the mount prefix.
    Route,
}

/// The status code that answers an error.
pub open spec fn error_status(e: Error) -> u16 {
    match e {
        Error::Io(IoKind::NotFound) => 404,
        Error::Io(IoKind::PermissionDenied) => 403,
        Error::Io(IoKind::Other) => 500,
        Error::Method => 405,
        Error::Typo => 500,
        Error::Route => 500,
    }
}

impl Error {
    pub open spec fn not_found_spec() -> Error {
        Error::Io(IoKind::NotFound)
    }

    /// The error of a missing file.
    pub fn not_found() -> (r: Self)
        ensures
            r == Error::Io(IoKind::NotFound),
    {
        Error::Io(IoKind::NotFound)
    }
}

/// The status code of the response that reports `err`.
pub fn error_handler(err: &Error) -> (status: u16)
    ensures
        status == error_status(*err),
{
    match err {
        Error::Io(IoKind::NotFound) => 404,
        Error::Io(IoKind::PermissionDenied) => 403,
        Error::Io(IoKind::Other) => 500,
        Error::Method => 405,
        Error::Typo | Error::Route => 500,
    }
}

/// The errors that an exception handler answers; the same kinds as [`Error`].
#[derive(Debug, Clone, Copy, PartialEq, Eq, Structural)]
pub enum Exception {
    Io(IoKind),
    Method,
    Typo,
    Route,
}

impl Exception {
    /// The exception of a missing file.
    pub fn not_found() -> (r: Self)
        ensures
            r == Exception::Io(IoKind::NotFound),
    {
        Exception::Io(IoKind::NotFound)
    }

    /// The error of the same kind.
    pub open spec fn as_error(self) -> Error {
        match self {
            Exception::Io(k) => Error::Io(k),
            Exception::Method => Error::Method,
            Exception::Typo => Error::Typo,
            Exception::Route => Error::Route,
        }
    }
}

/// The default exception handler: it answers each exception with the status
/// that [`error_handler`] gives the error of the same kind.
#[derive(Debug, Clone, Copy, Default)]
pub struct ExceptionHandler;

impl ExceptionHandler {
    pub fn call(&self, e: Exception) -> (status: u16)
        ensures
            status == error_status(e.as_error()),
    {
        let err = match e {
            Exception::Io(k) => Error::Io(k),
            Exception::Method => Error::Method,
            Exception::Typo => Error::Typo,
            Exception::Route => Error::Route,
        };
        error_handler(&err)
    }
}

} // verus!
