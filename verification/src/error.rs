//! The error type shared by every fallible operation of the crate.
//!
//! An error carries a human-readable message and a machine-checkable kind
//! tag: `"io"` for filesystem/OS-level failures, `"custom"` for the crate's
//! own rejections (an invalid path, a failed worker task).

use vstd::prelude::*;

verus! {

/// Spec-level image of an [`AppError`]: its message and kind tag as
/// character sequences.
pub struct ErrorView {
    pub message: Seq<char>,
    pub error_type: Seq<char>,
}

#[derive(Debug)]
pub struct AppError {
    pub message: String,
    pub error_type: String,
}

impl AppError {
    pub open spec fn view_spec(&self) -> ErrorView {
        ErrorView { message: self.message@, error_type: self.error_type@ }
    }

    /// An I/O-kind error, wrapping a filesystem or OS-level failure message.
    pub fn io(message: String) -> (r: AppError)
        ensures
            r.message@ == message@,
            r.error_type@ == "io"@,
    {
        AppError { message, error_type: "io".to_owned() }
    }

    /// A custom-kind error carrying the given message, as produced when a
    /// plain message string is turned into an error.
    pub fn from(message: String) -> (r: AppError)
        ensures
            r.message@ == message@,
            r.error_type@ == "custom"@,
    {
        AppError { message, error_type: "custom".to_owned() }
    }
}

} // verus!
