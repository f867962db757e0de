//! The errors of the service, their wording, and how a client sees them.

use vstd::prelude::*;

use crate::crypto::CryptoError;

verus! {

/// Why a request could not be served. The variants that carry a text hold the
/// wording of the failure underneath.
#[derive(Debug)]
pub enum AppError {
    Unauthorized,
    NotFound,
    BadRequest(String),
    Database(String),
    S3(String),
    Crypto(CryptoError),
    Compression(String),
    Internal(String),
}

/// An [`AppError`] with its texts as sequences of characters.
pub enum ErrorView {
    Unauthorized,
    NotFound,
    BadRequest(Seq<char>),
    Database(Seq<char>),
    S3(Seq<char>),
    Crypto(CryptoError),
    Compression(Seq<char>),
    Internal(Seq<char>),
}

impl View for AppError {
    type V = ErrorView;

    open spec fn view(&self) -> ErrorView {
        match *self {
            AppError::Unauthorized => ErrorView::Unauthorized,
            AppError::NotFound => ErrorView::NotFound,
            AppError::BadRequest(text) => ErrorView::BadRequest(text@),
            AppError::Database(text) => ErrorView::Database(text@),
            AppError::S3(text) => ErrorView::S3(text@),
            AppError::Crypto(error) => ErrorView::Crypto(error),
            AppError::Compression(text) => ErrorView::Compression(text@),
            AppError::Internal(text) => ErrorView::Internal(text@),
        }
    }
}

/// A result of bytes by what it holds.
pub open spec fn bytes_result(result: Result<Vec<u8>, AppError>) -> Result<Seq<u8>, ErrorView> {
    match result {
        Ok(bytes) => Ok(bytes@),
        Err(error) => Err(error@),
    }
}

/// A result of text by what it holds.
pub open spec fn text_result(result: Result<String, AppError>) -> Result<Seq<char>, ErrorView> {
    match result {
        Ok(text) => Ok(text@),
        Err(error) => Err(error@),
    }
}

/// A result without a value by what it holds.
pub open spec fn unit_result(result: Result<(), AppError>) -> Result<(), ErrorView> {
    match result {
        Ok(()) => Ok(()),
        Err(error) => Err(error@),
    }
}

/// Status code and message of the answer to a failed request.
pub struct ErrorReply {
    pub status: u16,
    pub message: String,
}

pub const STATUS_BAD_REQUEST: u16 = 400;

pub const STATUS_UNAUTHORIZED: u16 = 401;

pub const STATUS_NOT_FOUND: u16 = 404;

pub const STATUS_INTERNAL_SERVER_ERROR: u16 = 500;

impl ErrorView {
    /// The wording of the error.
    pub open spec fn text(self) -> Seq<char> {
        match self {
            ErrorView::Unauthorized => "unauthorized"@,
            ErrorView::NotFound => "not found"@,
            ErrorView::BadRequest(text) => "bad request: "@ + text,
            ErrorView::Database(text) => "database error: "@ + text,
            ErrorView::S3(text) => "s3 error: "@ + text,
            ErrorView::Crypto(error) => "crypto error: "@ + error.text(),
            ErrorView::Compression(text) => "compression error: "@ + text,
            ErrorView::Internal(text) => "internal error: "@ + text,
        }
    }

    /// The status code that a client is answered with.
    pub open spec fn status(self) -> u16 {
        match self {
            ErrorView::Unauthorized => STATUS_UNAUTHORIZED,
            ErrorView::NotFound => STATUS_NOT_FOUND,
            ErrorView::BadRequest(_) => STATUS_BAD_REQUEST,
            _ => STATUS_INTERNAL_SERVER_ERROR,
        }
    }

    /// The message that a client is answered with: nothing of an internal
    /// failure is told.
    pub open spec fn public_message(self) -> Seq<char> {
        match self {
            ErrorView::Unauthorized => "unauthorized"@,
            ErrorView::NotFound => "not found"@,
            ErrorView::BadRequest(text) => text,
            _ => "internal server error"@,
        }
    }
}

/// One text after another.
pub fn joined(first: &str, second: &str) -> (text: String)
    ensures
        text@ == first@ + second@,
{
    let mut text = first.to_owned();
    text.append(second);
    text
}

impl AppError {
    /// The wording of the error.
    pub fn to_text(&self) -> (text: String)
        ensures
            text@ == self@.text(),
            match *self {
                AppError::Unauthorized => text@ == "unauthorized"@,
                AppError::NotFound => text@ == "not found"@,
                AppError::BadRequest(reason) => text@ == "bad request: "@ + reason@,
                AppError::Database(reason) => text@ == "database error: "@ + reason@,
                AppError::S3(reason) => text@ == "s3 error: "@ + reason@,
                AppError::Crypto(error) => text@ == "crypto error: "@ + error.text(),
                AppError::Compression(reason) => text@ == "compression error: "@ + reason@,
                AppError::Internal(reason) => text@ == "internal error: "@ + reason@,
            },
    {
        match self {
            AppError::Unauthorized => "unauthorized".to_owned(),
            AppError::NotFound => "not found".to_owned(),
            AppError::BadRequest(text) => joined("bad request: ", text),
            AppError::Database(text) => joined("database error: ", text),
            AppError::S3(text) => joined("s3 error: ", text),
            AppError::Crypto(error) => joined("crypto error: ", &error.to_text()),
            AppError::Compression(text) => joined("compression error: ", text),
            AppError::Internal(text) => joined("internal error: ", text),
        }
    }

    /// The answer that a client gets.
    pub fn into_response(&self) -> (reply: ErrorReply)
        ensures
            reply.status == self@.status(),
            reply.message@ == self@.public_message(),
            match *self {
                AppError::Unauthorized => reply.status == 401 && reply.message@ == "unauthorized"@,
                AppError::NotFound => reply.status == 404 && reply.message@ == "not found"@,
                AppError::BadRequest(text) => reply.status == 400 && reply.message@ == text@,
                _ => reply.status == 500 && reply.message@ == "internal server error"@,
            },
    {
        match self {
            AppError::Unauthorized => ErrorReply {
                status: STATUS_UNAUTHORIZED,
                message: "unauthorized".to_owned(),
            },
            AppError::NotFound => ErrorReply {
                status: STATUS_NOT_FOUND,
                message: "not found".to_owned(),
            },
            AppError::BadRequest(text) => ErrorReply {
                status: STATUS_BAD_REQUEST,
                message: text.clone(),
            },
            _ => ErrorReply {
                status: STATUS_INTERNAL_SERVER_ERROR,
                message: "internal server error".to_owned(),
            },
        }
    }
}

/// The answers to two internal failures are the same, whatever went wrong.
pub proof fn law_internal_failures_look_alike(a: ErrorView, b: ErrorView)
    requires
        a.status() == STATUS_INTERNAL_SERVER_ERROR,
        b.status() == STATUS_INTERNAL_SERVER_ERROR,
    ensures
        a.public_message() == b.public_message(),
{
}

/// What a client is told: 401, 404 and 400 for what they did, with the reason for a
/// refused request word for word; 500 and nothing more for all else.
pub proof fn law_client_is_told(error: ErrorView)
    ensures
        error is Unauthorized ==> error.status() == 401 && error.public_message()
            == "unauthorized"@,
        error is NotFound ==> error.status() == 404 && error.public_message() == "not found"@,
        error matches ErrorView::BadRequest(text) ==> error.status() == 400
            && error.public_message() == text,
        !(error is Unauthorized) && !(error is NotFound) && !(error is BadRequest)
            ==> error.status() == 500 && error.public_message() == "internal server error"@,
{
}

/// The wording of an error holds the wording of the failure underneath, behind what
/// kind it is of.
pub proof fn law_wording_holds_the_failure(text: Seq<char>)
    ensures
        ErrorView::BadRequest(text).text() == "bad request: "@ + text,
        ErrorView::Database(text).text() == "database error: "@ + text,
        ErrorView::S3(text).text() == "s3 error: "@ + text,
        ErrorView::Compression(text).text() == "compression error: "@ + text,
        ErrorView::Internal(text).text() == "internal error: "@ + text,
        forall|error: CryptoError| #[trigger]
            ErrorView::Crypto(error).text() == "crypto error: "@ + error.text(),
        ErrorView::Unauthorized.text() == "unauthorized"@,
        ErrorView::NotFound.text() == "not found"@,
{
}

} // verus!
