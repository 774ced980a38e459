use vstd::prelude::*;

verus! {

#[verifier::external_type_specification]
#[verifier::external_body]
pub struct ExJsonError(serde_json::Error);

#[verifier::external_type_specification]
#[verifier::external_body]
pub struct ExHyperError(hyper::Error);

/// Error type that occurs when an API request fails for some reason.
#[derive(Debug)]
pub enum APIError {
    /// A continuation was required, but the listing has none. Never raised while
    /// iterating: there, exhaustion is a silent end of the sequence.
    ExhaustedListing,
    /// The API answered with a non-success HTTP status code (the numeric code).
    HTTPError(u16),
    /// The HTTP response was corrupt and could not be parsed.
    HyperError(hyper::Error),
    /// JSON deserialization failed.
    JSONError(serde_json::Error),
    /// A field that was expected to exist is missing.
    MissingField(&'static str),
    /// A decoded batch held a unit that is neither a comment nor an expansion stub.
    MalformedResponse(String),
    /// The operation is not available for this kind of item or this authenticator.
    NotSupported(&'static str),
}

/// The HTTP status code that means the credentials have expired or are invalid.
pub const UNAUTHORIZED: u16 = 401;

pub open spec fn is_success_code(status: u16) -> bool {
    200 <= status <= 299
}

/// `true` if the status code is in the success class (2xx).
pub fn is_success(status: u16) -> (r: bool)
    ensures
        r == is_success_code(status),
{
    200 <= status && status <= 299
}

/// Turns the status of a response whose body is not needed into a result.
pub fn check_status(status: u16) -> (r: Result<(), APIError>)
    ensures
        is_success_code(status) <==> r is Ok,
        !is_success_code(status) ==> (r matches Err(APIError::HTTPError(s)) && s == status),
{
    if is_success(status) {
        Ok(())
    } else {
        Err(APIError::HTTPError(status))
    }
}

impl APIError {
    /// `true` for the one error after which the credentials are refreshed and the
    /// request is sent once more.
    pub fn needs_refresh(&self) -> (r: bool)
        ensures
            r == (*self matches APIError::HTTPError(s) && s == UNAUTHORIZED),
    {
        match self {
            APIError::HTTPError(s) => *s == UNAUTHORIZED,
            _ => false,
        }
    }
}

impl APIError {
    /// A short description of the kind of error.
    pub fn description(&self) -> (r: &'static str)
        ensures
            *self is HTTPError ==> r@ == "The API returned a non-success error code"@,
            *self is HyperError ==> r@ == "An error occurred while processing the HTTP response"@,
            *self is JSONError ==> r@ == "The JSON sent by Reddit did not match what rawr was expecting"@,
            *self is MalformedResponse ==> r@ == "A batch held a unit that is neither a comment nor a stub"@,
            *self is NotSupported ==> r@ == "The operation is not supported"@,
            *self is ExhaustedListing || *self is MissingField ==> r@
                == "This error should not have occurred. Please file a bug"@,
    {
        match self {
            APIError::HTTPError(_) => "The API returned a non-success error code",
            APIError::HyperError(_) => "An error occurred while processing the HTTP response",
            APIError::JSONError(_) => "The JSON sent by Reddit did not match what rawr was expecting",
            APIError::MalformedResponse(_) => "A batch held a unit that is neither a comment nor a stub",
            APIError::NotSupported(_) => "The operation is not supported",
            _ => "This error should not have occurred. Please file a bug",
        }
    }
}

impl From<serde_json::Error> for APIError {
    fn from(err: serde_json::Error) -> (r: APIError)
        ensures
            r is JSONError,
    {
        APIError::JSONError(err)
    }
}

impl vstd::std_specs::convert::FromSpecImpl<serde_json::Error> for APIError {
    open spec fn obeys_from_spec() -> bool {
        true
    }

    open spec fn from_spec(v: serde_json::Error) -> APIError {
        APIError::JSONError(v)
    }
}

impl From<hyper::Error> for APIError {
    fn from(err: hyper::Error) -> (r: APIError)
        ensures
            r is HyperError,
    {
        APIError::HyperError(err)
    }
}

impl vstd::std_specs::convert::FromSpecImpl<hyper::Error> for APIError {
    open spec fn obeys_from_spec() -> bool {
        true
    }

    open spec fn from_spec(v: hyper::Error) -> APIError {
        APIError::HyperError(v)
    }
}

} // verus!
