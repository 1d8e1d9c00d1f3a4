//! Why the processing of a file stopped.

use vstd::prelude::*;

verus! {

/// `zip::result::ZipError`, the error of every call into `zip`. Nothing
/// inside it is seen here.
#[verifier::external_type_specification]
#[verifier::external_body]
pub struct ExZipError(zip::result::ZipError);

/// `std::io::Error`, the error of reading and of copying. Nothing inside it
/// is seen here.
#[verifier::external_type_specification]
#[verifier::external_body]
pub struct ExIoError(std::io::Error);

/// The kinds of failure. Each one ends the processing of the file.
#[derive(Copy, Clone, Debug, PartialEq, Eq, Structural)]
pub enum ErrorKind {
    /// The bytes are not a container that can be read.
    OpenFailure,
    /// An entry of the container could not be read when its turn came.
    CorruptEntry,
    /// The content of a symbolic link is not text.
    InvalidSymlink,
    /// An entry could not be written, or the new container not completed.
    WriteFailure,
    /// The new container could not be put in the place of the old one. The
    /// caller that replaces the file reports this; nothing here does.
    PersistFailure,
}

/// A failure: its kind, and what is known of its cause.
#[derive(Debug)]
pub struct ProcessError {
    /// What failed.
    pub kind: ErrorKind,
    /// The cause in words, for the operator.
    pub detail: String,
}

/// Calls `zip`: the `Display` text of a `ZipError`. Nothing is claimed of
/// the text.
#[verifier::external_body]
fn zip_error_text(error: &zip::result::ZipError) -> (text: String) {
    format!("{}", error)
}

/// Calls `std`: the `Display` text of a `std::io::Error`. Nothing is claimed
/// of the text.
#[verifier::external_body]
fn io_error_text(error: &std::io::Error) -> (text: String) {
    format!("{}", error)
}

impl ProcessError {
    /// A failure of the given kind with a cause stated by this library.
    pub fn new(kind: ErrorKind, detail: &str) -> (error: ProcessError)
        ensures
            error.kind == kind,
            error.detail@ == detail@,
    {
        ProcessError { kind, detail: detail.to_owned() }
    }

    /// A failure of the given kind whose cause the container library
    /// reported.
    pub fn from_zip(kind: ErrorKind, cause: &zip::result::ZipError) -> (error: ProcessError)
        ensures
            error.kind == kind,
    {
        ProcessError { kind, detail: zip_error_text(cause) }
    }

    /// A failure of the given kind whose cause came up while reading or
    /// copying.
    pub fn from_io(kind: ErrorKind, cause: &std::io::Error) -> (error: ProcessError)
        ensures
            error.kind == kind,
    {
        ProcessError { kind, detail: io_error_text(cause) }
    }

    /// The text to show to the operator.
    pub fn message(&self) -> (text: String)
        ensures
            text@ == self.detail@,
    {
        self.detail.clone()
    }
}

} // verus!
