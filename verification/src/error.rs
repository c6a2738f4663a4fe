//! Errors answered by the HTTP API.
use vstd::prelude::*;

verus! {

/// An error answered to an API client.
pub enum AppError {
    /// 404: the feed or episode does not exist.
    NotFound,
    /// 401: the admin token is missing or wrong.
    Unauthorized,
    /// 400 with a message.
    BadRequest(String),
}

} // verus!
