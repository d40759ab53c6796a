//! The library's error type and how it is reported to clients.

use vstd::prelude::*;
use vstd::string::StringExecFns;

verus! {

/// What went wrong while serving a request.
#[derive(Debug)]
pub enum AppError {
    BadRequest(String),
    Unauthorized,
    NotFound,
    Database(String),
    Io(String),
    Internal(String),
}

/// The mathematical model of an [`AppError`].
pub enum ErrorView {
    BadRequest(Seq<char>),
    Unauthorized,
    NotFound,
    Database(Seq<char>),
    Io(Seq<char>),
    Internal(Seq<char>),
}

impl View for AppError {
    type V = ErrorView;

    open spec fn view(&self) -> ErrorView {
        match self {
            AppError::BadRequest(m) => ErrorView::BadRequest(m@),
            AppError::Unauthorized => ErrorView::Unauthorized,
            AppError::NotFound => ErrorView::NotFound,
            AppError::Database(m) => ErrorView::Database(m@),
            AppError::Io(m) => ErrorView::Io(m@),
            AppError::Internal(m) => ErrorView::Internal(m@),
        }
    }
}

/// A bad-request error carrying `message`.
pub fn bad_request(message: &str) -> (e: AppError)
    ensures
        e@ == ErrorView::BadRequest(message@),
{
    AppError::BadRequest(message.to_owned())
}

pub open spec fn spec_status_code(e: ErrorView) -> u16 {
    match e {
        ErrorView::BadRequest(_) => 400,
        ErrorView::Unauthorized => 401,
        ErrorView::NotFound => 404,
        _ => 500,
    }
}

/// The message shown to clients: the request's own message for a bad
/// request, a fixed sentence otherwise.
pub open spec fn spec_public_message(e: ErrorView) -> Seq<char> {
    match e {
        ErrorView::BadRequest(m) => m,
        ErrorView::Unauthorized => "Not authorized"@,
        ErrorView::NotFound => "Not found"@,
        _ => "Something went wrong on the sTori server. Please try again."@,
    }
}

/// The error's description, as it is written to logs and job records.
pub open spec fn spec_describe(e: ErrorView) -> Seq<char> {
    match e {
        ErrorView::BadRequest(m) => m,
        ErrorView::Unauthorized => "Not authorized"@,
        ErrorView::NotFound => "Not found"@,
        ErrorView::Database(m) => "Database error: "@ + m,
        ErrorView::Io(m) => "File error: "@ + m,
        ErrorView::Internal(m) => m,
    }
}

impl AppError {
    /// The HTTP status code that answers a request which failed with this error.
    pub fn status_code(&self) -> (code: u16)
        ensures
            code == spec_status_code(self@),
    {
        match self {
            AppError::BadRequest(_) => 400,
            AppError::Unauthorized => 401,
            AppError::NotFound => 404,
            _ => 500,
        }
    }

    /// Whether the status code is a server error (5xx), which is logged.
    pub fn is_server_error(&self) -> (r: bool)
        ensures
            r == (spec_status_code(self@) >= 500),
    {
        self.status_code() >= 500
    }

    /// The message returned to the client in the JSON error body.
    pub fn public_message(&self) -> (m: String)
        ensures
            m@ == spec_public_message(self@),
    {
        match self {
            AppError::BadRequest(m) => m.clone(),
            AppError::Unauthorized => "Not authorized".to_owned(),
            AppError::NotFound => "Not found".to_owned(),
            _ => "Something went wrong on the sTori server. Please try again.".to_owned(),
        }
    }

    /// The error's full description.
    pub fn describe(&self) -> (m: String)
        ensures
            m@ == spec_describe(self@),
    {
        match self {
            AppError::BadRequest(m) => m.clone(),
            AppError::Unauthorized => "Not authorized".to_owned(),
            AppError::NotFound => "Not found".to_owned(),
            AppError::Database(m) => {
                let mut s = "Database error: ".to_owned();
                s.append(m.as_str());
                s
            },
            AppError::Io(m) => {
                let mut s = "File error: ".to_owned();
                s.append(m.as_str());
                s
            },
            AppError::Internal(m) => m.clone(),
        }
    }
}

} // verus!
