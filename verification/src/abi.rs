//! The outcome of a call through the C interface, as plain values: a status
//! code, the bytes of the data and of the error message, and a flag. Moving
//! these bytes across the boundary is left to the caller.
use vstd::prelude::*;
use vstd::string::StringExecFns;

use crate::bytes::{decimal, describe_number, utf8_str};
use crate::error::DbError;

verus! {

pub const PAPYRITE_STATUS_OK: i32 = 0;

pub const PAPYRITE_STATUS_INVALID_ARGUMENT: i32 = 1;

pub const PAPYRITE_STATUS_ENGINE_ERROR: i32 = 2;

pub const PAPYRITE_STATUS_PANIC: i32 = 3;

/// What a call hands back.
pub struct CallResult {
    pub code: i32,
    pub data: Vec<u8>,
    pub error: Vec<u8>,
    pub bool_value: u8,
}

/// Why the body of a call stopped: a bad argument, or an error of the engine,
/// each with its message.
pub enum CallError {
    InvalidArgument(String),
    Engine(String),
}

/// The UTF-8 bytes of a text.
pub open spec fn text_bytes(s: Seq<char>) -> Seq<u8> {
    vstd::utf8::encode_utf8(s)
}

/// The message of a call that panicked.
pub open spec fn panic_message() -> Seq<char> {
    "panic caught inside Papyrite FFI boundary"@
}

/// The bytes of a text, copied.
fn bytes_of(s: &str) -> (r: Vec<u8>)
    ensures
        r@ == text_bytes(s@),
{
    vstd::slice::slice_to_vec(s.as_bytes())
}

impl CallResult {
    /// A success with no data.
    pub fn ok() -> (r: CallResult)
        ensures
            r.code == PAPYRITE_STATUS_OK,
            r.data@.len() == 0,
            r.error@.len() == 0,
            r.bool_value == 0,
    {
        CallResult { code: PAPYRITE_STATUS_OK, data: Vec::new(), error: Vec::new(), bool_value: 0 }
    }

    /// A failure with status `code` and the bytes of `message`.
    pub fn error(code: i32, message: String) -> (r: CallResult)
        ensures
            r.code == code,
            r.data@.len() == 0,
            r.error@ == text_bytes(message@),
            r.bool_value == 0,
    {
        CallResult { code, data: Vec::new(), error: bytes_of(message.as_str()), bool_value: 0 }
    }

    /// A success whose data is the bytes of `text`.
    pub fn with_text(text: String) -> (r: CallResult)
        ensures
            r.code == PAPYRITE_STATUS_OK,
            r.data@ == text_bytes(text@),
            r.error@.len() == 0,
            r.bool_value == 0,
    {
        CallResult {
            code: PAPYRITE_STATUS_OK,
            data: bytes_of(text.as_str()),
            error: Vec::new(),
            bool_value: 0,
        }
    }

    /// The success of a read: the flag tells whether a document was found,
    /// and the data holds its text.
    pub fn found(text: Option<String>) -> (r: CallResult)
        ensures
            r.code == PAPYRITE_STATUS_OK,
            r.error@.len() == 0,
            match text {
                Some(t) => r.bool_value == 1 && r.data@ == text_bytes(t@),
                None => r.bool_value == 0 && r.data@.len() == 0,
            },
    {
        match text {
            Some(t) => {
                let mut r = CallResult::with_text(t);
                r.bool_value = 1;
                r
            },
            None => CallResult::ok(),
        }
    }

    /// The success of a delete: the flag tells whether a document was deleted.
    pub fn deleted(deleted: bool) -> (r: CallResult)
        ensures
            r.code == PAPYRITE_STATUS_OK,
            r.data@.len() == 0,
            r.error@.len() == 0,
            r.bool_value == (if deleted {
                1u8
            } else {
                0u8
            }),
    {
        let mut r = CallResult::ok();
        r.bool_value = if deleted {
            1
        } else {
            0
        };
        r
    }
}

/// The engine's error, as the message of a failed call.
pub fn engine_error(e: &DbError) -> (r: CallError)
    ensures
        r matches CallError::Engine(m) && e.describes(m@),
{
    CallError::Engine(e.to_string())
}

/// The result a call ends with, from what its body gave: `None` when the
/// body panicked.
pub fn call_outcome(body: Option<Result<CallResult, CallError>>) -> (r: CallResult)
    ensures
        match body {
            Some(Ok(x)) => r == x,
            Some(Err(CallError::InvalidArgument(m))) => r.code == PAPYRITE_STATUS_INVALID_ARGUMENT
                && r.data@.len() == 0 && r.error@ == text_bytes(m@) && r.bool_value == 0,
            Some(Err(CallError::Engine(m))) => r.code == PAPYRITE_STATUS_ENGINE_ERROR
                && r.data@.len() == 0 && r.error@ == text_bytes(m@) && r.bool_value == 0,
            None => r.code == PAPYRITE_STATUS_PANIC && r.data@.len() == 0 && r.error@ == text_bytes(
                panic_message(),
            ) && r.bool_value == 0,
        },
{
    match body {
        Some(Ok(x)) => x,
        Some(Err(CallError::InvalidArgument(m))) => CallResult::error(
            PAPYRITE_STATUS_INVALID_ARGUMENT,
            m,
        ),
        Some(Err(CallError::Engine(m))) => CallResult::error(PAPYRITE_STATUS_ENGINE_ERROR, m),
        None => CallResult::error(
            PAPYRITE_STATUS_PANIC,
            String::from_str("panic caught inside Papyrite FFI boundary"),
        ),
    }
}

/// The message for a text argument given as a null pointer with a length
/// other than zero.
pub open spec fn null_argument_message(name: Seq<char>, len: nat) -> Seq<char> {
    name + " pointer is null but length is "@ + decimal(len)
}

/// A text argument passed as a null pointer: the empty text when its length
/// is zero, refused otherwise.
pub fn null_text_argument(name: &str, len: usize) -> (r: Result<&'static str, CallError>)
    ensures
        len == 0 ==> (r matches Ok(t) && t@.len() == 0),
        len != 0 ==> (r matches Err(CallError::InvalidArgument(m)) && m@ == null_argument_message(
            name@,
            len as nat,
        )),
{
    if len == 0 {
        let empty = "";
        proof {
            reveal_strlit("");
        }
        return Ok(empty);
    }
    let detail = describe_number(" pointer is null but length is ", len);
    let mut m = String::from_str(name);
    m.append(detail.as_str());
    Err(CallError::InvalidArgument(m))
}

/// A text argument given as bytes: the text when they are valid UTF-8,
/// refused otherwise with a message that starts with the argument's name.
pub fn text_argument<'a>(name: &str, bytes: &'a [u8]) -> (r: Result<&'a str, CallError>)
    ensures
        vstd::utf8::valid_utf8(bytes@) ==> (r matches Ok(t) && t@ == vstd::utf8::decode_utf8(
            bytes@,
        )),
        !vstd::utf8::valid_utf8(bytes@) ==> (r matches Err(CallError::InvalidArgument(m)) && (name@
            + " is not valid UTF-8: "@).is_prefix_of(m@)),
{
    match utf8_str(bytes) {
        Ok(text) => Ok(text),
        Err(e) => {
            let mut m = String::from_str(name);
            m.append(" is not valid UTF-8: ");
            let detail = e.to_string();
            m.append(detail.as_str());
            Err(CallError::InvalidArgument(m))
        },
    }
}

} // verus!
