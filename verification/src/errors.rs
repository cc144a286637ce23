//! The error kinds the tool reports, the exit-code mapping, and the message
//! rendered for each failure.

use vstd::prelude::*;

verus! {

use vstd::string::StringExecFns;

/// The kinds of failure the tool distinguishes.
#[derive(Clone, Copy, Debug, PartialEq, Eq, Structural)]
pub enum PscanError {
    FileRead,
    Argument,
    InputError,
}

/// The short name of an error kind.
pub open spec fn label_of(e: PscanError) -> Seq<char> {
    match e {
        PscanError::FileRead => "FileRead"@,
        PscanError::Argument => "Argument"@,
        PscanError::InputError => "InputError"@,
    }
}

/// The message prefix an error report is rendered with.
pub open spec fn prefix_of(e: PscanError) -> Seq<char> {
    match e {
        PscanError::FileRead => "FileReadError: "@,
        PscanError::Argument => "BadArgumentError: "@,
        PscanError::InputError => "InputError: "@,
    }
}

/// The process exit code reported for an error kind: 1 for file errors, 2
/// for argument and input errors.
pub open spec fn exit_code_of(e: PscanError) -> int {
    match e {
        PscanError::FileRead => 1,
        PscanError::Argument => 2,
        PscanError::InputError => 2,
    }
}

impl PscanError {
    /// The short name of this error kind, as shown to the user.
    pub fn label(&self) -> (r: String)
        ensures
            r@ == label_of(*self),
    {
        match self {
            PscanError::FileRead => "FileRead".to_owned(),
            PscanError::Argument => "Argument".to_owned(),
            PscanError::InputError => "InputError".to_owned(),
        }
    }
}

/// The exit code the process ends with for this error kind.
pub fn exit_code(e: &PscanError) -> (r: i32)
    ensures
        r as int == exit_code_of(*e),
{
    match e {
        PscanError::FileRead => 1,
        PscanError::Argument => 2,
        PscanError::InputError => 2,
    }
}

/// An error report: a message and the kind of failure it describes.
pub struct ErrorResponse {
    pub error_msg: String,
    pub error_type: PscanError,
}

impl ErrorResponse {
    /// Builds an error report from its message and kind.
    pub fn new(error_msg: String, error_type: PscanError) -> (r: Self)
        ensures
            r.error_msg == error_msg,
            r.error_type == error_type,
    {
        ErrorResponse { error_msg, error_type }
    }
}

/// The rendered message for an error report: the kind's prefix followed by
/// the message text.
pub fn render_message(resp: &ErrorResponse) -> (r: String)
    ensures
        r@ == prefix_of(resp.error_type) + resp.error_msg@,
{
    let mut msg: String = match resp.error_type {
        PscanError::FileRead => "FileReadError: ".to_owned(),
        PscanError::Argument => "BadArgumentError: ".to_owned(),
        PscanError::InputError => "InputError: ".to_owned(),
    };
    msg.append(resp.error_msg.as_str());
    msg
}

} // verus!
