//! The error taxonomy of the services' synchronous boundary. Business
//! rejections carry a typed variant; infrastructure and programming
//! failures are folded into `Other`, surfaced as an internal error.

use vstd::prelude::*;

verus! {

/// An error a service hands back to a synchronous caller.
#[derive(Clone, PartialEq, Debug)]
pub enum AppError {
    /// A downstream service could not be reached; the caller may retry.
    ServiceUnreachable(String),
    /// The caller is not allowed to touch the named resource.
    ForbiddenResource(String),
    /// The payment provider is not one the payments service accepts.
    InvalidPaymentProvider(String),
    /// No product row with this id exists.
    ProductNotFound(i32),
    /// A delivery status outside the delivery lifecycle was requested.
    BadDeliveryState(String),
    /// Anything else: infrastructure or programming failure.
    Other(String),
}

/// The HTTP status each error maps to at the service boundary.
pub open spec fn spec_status_code(e: AppError) -> u16 {
    match e {
        AppError::ServiceUnreachable(_) => 503,
        AppError::ForbiddenResource(_) => 403,
        AppError::InvalidPaymentProvider(_) => 400,
        AppError::ProductNotFound(_) => 404,
        AppError::BadDeliveryState(_) => 400,
        AppError::Other(_) => 500,
    }
}

impl AppError {
    /// The HTTP status this error maps to at the service boundary.
    pub fn status_code(&self) -> (c: u16)
        ensures
            c == spec_status_code(*self),
    {
        match self {
            AppError::ServiceUnreachable(_) => 503,
            AppError::ForbiddenResource(_) => 403,
            AppError::InvalidPaymentProvider(_) => 400,
            AppError::ProductNotFound(_) => 404,
            AppError::BadDeliveryState(_) => 400,
            AppError::Other(_) => 500,
        }
    }
}

} // verus!
