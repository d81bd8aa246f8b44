use vstd::prelude::*;

verus! {

/// The closed error taxonomy of the service. Every failure of a pipeline is
/// one of these variants, and each maps to exactly one transport status
/// code, so no outcome is ever left unmapped.
#[derive(Clone, Copy, Debug, PartialEq, Eq, Structural)]
pub enum ApiError {
    /// No credential was presented correctly (absent or structurally
    /// malformed bearer material).
    Unauthorized,
    /// A credential was presented but is not valid for the target mailbox
    /// (unknown digest, or a revoked deposit token, or the wrong poll token).
    Forbidden,
    /// The mailbox does not exist.
    NotFound,
    /// Malformed encoding, an out-of-range size or count, or an invalid
    /// expiry.
    InvalidInput,
    /// The message body exceeds the configured maximum.
    PayloadTooLarge,
    /// The mailbox's byte quota would be exceeded.
    RateLimited,
    /// A message with the same id is already present in the mailbox.
    Conflict,
    /// An unexpected storage failure.
    ServerError,
}

impl ApiError {
    /// The transport status code of this error.
    pub open spec fn spec_status_code(self) -> u16 {
        match self {
            ApiError::Unauthorized => 401,
            ApiError::Forbidden => 403,
            ApiError::NotFound => 404,
            ApiError::InvalidInput => 400,
            ApiError::PayloadTooLarge => 413,
            ApiError::RateLimited => 429,
            ApiError::Conflict => 409,
            ApiError::ServerError => 500,
        }
    }

    /// The exhaustive mapping from the taxonomy to transport status codes,
    /// kept in one place.
    pub fn status_code(&self) -> (code: u16)
        ensures
            code == self.spec_status_code(),
    {
        match self {
            ApiError::Unauthorized => 401,
            ApiError::Forbidden => 403,
            ApiError::NotFound => 404,
            ApiError::InvalidInput => 400,
            ApiError::PayloadTooLarge => 413,
            ApiError::RateLimited => 429,
            ApiError::Conflict => 409,
            ApiError::ServerError => 500,
        }
    }
}

} // verus!
