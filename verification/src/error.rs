//! Errors of the library, and the text each one shows in the status line.
use vstd::prelude::*;

use crate::text::{push_signed, push_str, signed_decimal};

verus! {

#[derive(Debug)]
pub enum Error {
    /// A libqcperf call failed with `code`; `message` is what the library
    /// says about that code.
    QcPerf { code: i32, message: String },
    Message(String),
    /// A file operation failed; the text describes the failure.
    Io(String),
    Toml(String),
    Json(String),
}

/// What the status line shows for an error.
pub open spec fn error_text(e: Error) -> Seq<char> {
    match e {
        Error::QcPerf { code, message } => "libqcperf error "@ + signed_decimal(code as int) + ": "@
            + message@,
        Error::Message(text) => text@,
        Error::Io(text) => text@,
        Error::Toml(text) => "invalid dashboard file: "@ + text@,
        Error::Json(text) => "invalid snapshot: "@ + text@,
    }
}

impl Error {
    pub fn message(text: String) -> (res: Self)
        ensures
            res matches Error::Message(t) && t@ == text@,
    {
        Error::Message(text)
    }

    /// The error as the status line shows it.
    pub fn text(&self) -> (res: String)
        ensures
            res@ == error_text(*self),
    {
        let mut s = String::new();
        match self {
            Error::QcPerf { code, message } => {
                push_str(&mut s, "libqcperf error ");
                push_signed(&mut s, *code as i64);
                push_str(&mut s, ": ");
                push_str(&mut s, message.as_str());
            },
            Error::Message(text) => {
                push_str(&mut s, text.as_str());
            },
            Error::Io(text) => {
                push_str(&mut s, text.as_str());
            },
            Error::Toml(text) => {
                push_str(&mut s, "invalid dashboard file: ");
                push_str(&mut s, text.as_str());
            },
            Error::Json(text) => {
                push_str(&mut s, "invalid snapshot: ");
                push_str(&mut s, text.as_str());
            },
        }
        s
    }
}

} // verus!
