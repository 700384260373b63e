//! The ways in which talking to an adapter can fail.

use crate::text::{decimal, decimal_text};
use vstd::prelude::*;

verus! {

/// Why a request to an adapter, or the reading of its answer, failed.
#[derive(Debug, Clone)]
pub enum Error {
    Http(String),
    Timeout,
    Auth,
    Csrf,
    HttpStatus(u16),
    Decode { cmd: String, reason: String },
    Config(String),
}

/// An [`Error`] with its texts as character sequences.
#[verifier::ext_equal]
pub enum ErrorView {
    Http(Seq<char>),
    Timeout,
    Auth,
    Csrf,
    HttpStatus(u16),
    Decode { cmd: Seq<char>, reason: Seq<char> },
    Config(Seq<char>),
}

impl View for Error {
    type V = ErrorView;

    open spec fn view(&self) -> ErrorView {
        match *self {
            Error::Http(text) => ErrorView::Http(text@),
            Error::Timeout => ErrorView::Timeout,
            Error::Auth => ErrorView::Auth,
            Error::Csrf => ErrorView::Csrf,
            Error::HttpStatus(code) => ErrorView::HttpStatus(code),
            Error::Decode { cmd, reason } => ErrorView::Decode { cmd: cmd@, reason: reason@ },
            Error::Config(text) => ErrorView::Config(text@),
        }
    }
}

pub type Result<T> = core::result::Result<T, Error>;

/// Whether `r` is the outcome `expected`, value and error taken by their views.
pub open spec fn outcome_is<T: View>(
    r: core::result::Result<T, Error>,
    expected: core::result::Result<T::V, ErrorView>,
) -> bool {
    match r {
        Ok(value) => expected == Ok::<T::V, ErrorView>(value@),
        Err(e) => expected == Err::<T::V, ErrorView>(e@),
    }
}

/// The message of an error.
pub open spec fn error_message(e: ErrorView) -> Seq<char> {
    match e {
        ErrorView::Http(text) => "http error: "@ + text,
        ErrorView::Timeout => "request timed out"@,
        ErrorView::Auth => "authentication failed"@,
        ErrorView::Csrf => "csrf token rejected"@,
        ErrorView::HttpStatus(code) => "unexpected http status "@ + decimal(code as nat),
        ErrorView::Decode { cmd, reason } => "decode "@ + cmd + ": "@ + reason,
        ErrorView::Config(text) => "config error: "@ + text,
    }
}

impl Error {
    /// The message that is shown of this error.
    pub fn to_string(&self) -> (r: String)
        ensures
            r@ == error_message(self@),
    {
        match self {
            Error::Http(text) => "http error: ".to_owned().concat(text.as_str()),
            Error::Timeout => "request timed out".to_owned(),
            Error::Auth => "authentication failed".to_owned(),
            Error::Csrf => "csrf token rejected".to_owned(),
            Error::HttpStatus(code) => {
                let digits = decimal_text(*code as u64);
                "unexpected http status ".to_owned().concat(digits.as_str())
            },
            Error::Decode { cmd, reason } => {
                "decode ".to_owned().concat(cmd.as_str()).concat(": ").concat(reason.as_str())
            },
            Error::Config(text) => "config error: ".to_owned().concat(text.as_str()),
        }
    }
}

} // verus!
