//! The REST surface's error mapping: each API error and the HTTP status and
//! message it is answered with.

use vstd::prelude::*;

verus! {

/// A REST error, mapped to an HTTP status.
pub enum ApiError {
    /// 404.
    NotFound,
    /// 400, with the reason.
    BadRequest(String),
    /// 500, with the reason.
    Internal(String),
}

impl ApiError {
    /// The HTTP status code the error is answered with.
    pub fn status(&self) -> (s: u16)
        ensures
            s == match self {
                ApiError::NotFound => 404u16,
                ApiError::BadRequest(_) => 400u16,
                ApiError::Internal(_) => 500u16,
            },
    {
        match self {
            ApiError::NotFound => 404,
            ApiError::BadRequest(_) => 400,
            ApiError::Internal(_) => 500,
        }
    }

    /// The message of the error body.
    pub fn message(&self) -> (m: String)
        ensures
            match self {
                ApiError::NotFound => m@ == "not found"@,
                ApiError::BadRequest(x) => m@ == x@,
                ApiError::Internal(x) => m@ == x@,
            },
    {
        match self {
            ApiError::NotFound => "not found".to_owned(),
            ApiError::BadRequest(x) => x.clone(),
            ApiError::Internal(x) => x.clone(),
        }
    }
}

} // verus!
