//! The errors that the library's operations report, and the HTTP status and
//! body that each of them is answered with.
use vstd::prelude::*;

verus! {

/// Why an operation was refused or failed.
#[derive(Clone, Copy, Debug, PartialEq, Eq, Structural)]
pub enum ApiError {
    NotFound,
    BadRequest,
    InternalServerError,
    Unauthorized,
}

impl ApiError {
    /// The HTTP status code of the error.
    pub open spec fn status_code_spec(self) -> u16 {
        match self {
            ApiError::NotFound => 404,
            ApiError::BadRequest => 400,
            ApiError::InternalServerError => 500,
            ApiError::Unauthorized => 401,
        }
    }

    /// The standard reason phrase of the error's HTTP status.
    pub open spec fn reason_spec(self) -> Seq<char> {
        match self {
            ApiError::NotFound => "Not Found"@,
            ApiError::BadRequest => "Bad Request"@,
            ApiError::InternalServerError => "Internal Server Error"@,
            ApiError::Unauthorized => "Unauthorized"@,
        }
    }

    /// The HTTP status code of the error.
    pub fn status_code(&self) -> (r: u16)
        ensures
            r == self.status_code_spec(),
    {
        match self {
            ApiError::NotFound => 404,
            ApiError::BadRequest => 400,
            ApiError::InternalServerError => 500,
            ApiError::Unauthorized => 401,
        }
    }

    /// The standard reason phrase of the error's HTTP status.
    pub fn reason(&self) -> (r: String)
        ensures
            r@ == self.reason_spec(),
    {
        match self {
            ApiError::NotFound => "Not Found".to_owned(),
            ApiError::BadRequest => "Bad Request".to_owned(),
            ApiError::InternalServerError => "Internal Server Error".to_owned(),
            ApiError::Unauthorized => "Unauthorized".to_owned(),
        }
    }
}

/// The body that an error is answered with.
#[derive(Debug)]
pub struct ErrorResponse {
    pub code: u16,
    pub message: String,
}

impl ErrorResponse {
    /// The body for the error: its status code and reason phrase.
    pub fn from_error(e: ApiError) -> (r: ErrorResponse)
        ensures
            r.code == e.status_code_spec(),
            r.message@ == e.reason_spec(),
    {
        ErrorResponse { code: e.status_code(), message: e.reason() }
    }
}

} // verus!
