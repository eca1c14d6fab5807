//! What the output of the markup converter amounts to.

use std::string::FromUtf8Error;
use vstd::prelude::*;
use vstd::utf8::{decode_utf8, valid_utf8};

verus! {

#[verifier::external_type_specification]
#[verifier::external_body]
pub struct ExFromUtf8Error(FromUtf8Error);

/// `String::from_utf8`: the text that `bytes` encode when they are valid
/// UTF-8, else the error.
#[verifier::external_body]
fn string_from_utf8(bytes: Vec<u8>) -> (text: Result<String, FromUtf8Error>)
    ensures
        text is Ok <==> valid_utf8(bytes@),
        text matches Ok(t) ==> t@ == decode_utf8(bytes@),
{
    String::from_utf8(bytes)
}

/// Why a conversion gave no text.
pub enum TextProcError {
    /// The converter's output is not UTF-8.
    InvalidUtf8(FromUtf8Error),
    /// The converter failed, with its exit code (if any) and its error output.
    Failed { code: Option<i32>, stderr: Vec<u8> },
}

/// The converted text from the converter's exit status and outputs: its
/// standard output decoded as UTF-8 when it succeeded.
pub fn interpret_output(success: bool, stdout: Vec<u8>, code: Option<i32>, stderr: Vec<u8>) -> (text: Result<String, TextProcError>)
    ensures
        text is Ok <==> success && valid_utf8(stdout@),
        text matches Ok(t) ==> t@ == decode_utf8(stdout@),
        success && !valid_utf8(stdout@) ==> text matches Err(TextProcError::InvalidUtf8(_)),
        !success ==> (text matches Err(TextProcError::Failed { code: c, stderr: e }) && c == code
            && e@ == stderr@),
{
    if success {
        match string_from_utf8(stdout) {
            Ok(t) => Ok(t),
            Err(e) => Err(TextProcError::InvalidUtf8(e)),
        }
    } else {
        Err(TextProcError::Failed { code, stderr })
    }
}

} // verus!
