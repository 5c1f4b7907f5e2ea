//! Errors reported to the callers of the service.
use vstd::prelude::*;

verus! {

#[derive(Clone, Debug)]
pub enum ApiError {
    BadRequest(String),
    Unauthorized(String),
    Forbidden(String),
    NotFound(String),
    InternalError(String),
    DatabaseError(String),
    ValidationError(String),
}

pub fn bad_request(msg: &str) -> (r: ApiError)
    ensures
        r matches ApiError::BadRequest(m) && m@ == msg@,
{
    ApiError::BadRequest(msg.to_owned())
}

pub fn unauthorized(msg: &str) -> (r: ApiError)
    ensures
        r matches ApiError::Unauthorized(m) && m@ == msg@,
{
    ApiError::Unauthorized(msg.to_owned())
}

pub fn not_found(msg: &str) -> (r: ApiError)
    ensures
        r matches ApiError::NotFound(m) && m@ == msg@,
{
    ApiError::NotFound(msg.to_owned())
}

pub fn internal_error(msg: &str) -> (r: ApiError)
    ensures
        r matches ApiError::InternalError(m) && m@ == msg@,
{
    ApiError::InternalError(msg.to_owned())
}

pub fn validation_error(msg: &str) -> (r: ApiError)
    ensures
        r matches ApiError::ValidationError(m) && m@ == msg@,
{
    ApiError::ValidationError(msg.to_owned())
}

} // verus!
