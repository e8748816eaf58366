//! Errors of the HTTP interface.

use vstd::prelude::*;
use vstd::string::*;

verus! {

pub enum ApiError {
    /// 400: a malformed request, a missing field, an invalid value
    BadRequest(String),
    /// 422: a well-formed request that makes no sense
    UnprocessableEntity(String),
    /// 503: the plugin server is not reachable
    ServiceUnavailable(String),
    /// 502: a plugin call failed
    BadGateway(String),
    /// 404
    NotFound(String),
    /// 500
    Internal(String),
}

/// The status, the code and the message with which an error is answered.
pub struct ErrorReply {
    pub status: u16,
    pub code: &'static str,
    pub message: String,
}

impl ApiError {
    pub fn bad_request(msg: &str) -> (r: Self)
        ensures
            r matches ApiError::BadRequest(m) && m@ == msg@,
    {
        ApiError::BadRequest(msg.to_owned())
    }

    pub fn unprocessable(msg: &str) -> (r: Self)
        ensures
            r matches ApiError::UnprocessableEntity(m) && m@ == msg@,
    {
        ApiError::UnprocessableEntity(msg.to_owned())
    }

    pub fn not_found(msg: &str) -> (r: Self)
        ensures
            r matches ApiError::NotFound(m) && m@ == msg@,
    {
        ApiError::NotFound(msg.to_owned())
    }

    /// A failed plugin call, with the error that it gave.
    pub fn plugin(op: &str, e: &str) -> (r: Self)
        ensures
            r matches ApiError::BadGateway(m) && m@ == op@ + " failed: "@ + e@,
    {
        let mut m: String = op.to_owned();
        m.append(" failed: ");
        m.append(e);
        ApiError::BadGateway(m)
    }

    /// The plugin server is not ready.
    pub fn plugin_unavailable() -> (r: Self)
        ensures
            r matches ApiError::ServiceUnavailable(m) && m@ == "plugin not available"@,
    {
        ApiError::ServiceUnavailable("plugin not available".to_owned())
    }

    /// An operation that failed unexpectedly, with the error that it gave.
    pub fn failed(op: &str, e: &str) -> (r: Self)
        ensures
            r matches ApiError::Internal(m) && m@ == op@ + " failed: "@ + e@,
    {
        let mut m: String = op.to_owned();
        m.append(" failed: ");
        m.append(e);
        ApiError::Internal(m)
    }

    /// An unexpected error.
    pub fn internal(e: &str) -> (r: Self)
        ensures
            r matches ApiError::Internal(m) && m@ == e@,
    {
        ApiError::Internal(e.to_owned())
    }

    pub open spec fn status(&self) -> u16 {
        match *self {
            ApiError::BadRequest(_) => 400,
            ApiError::UnprocessableEntity(_) => 422,
            ApiError::ServiceUnavailable(_) => 503,
            ApiError::BadGateway(_) => 502,
            ApiError::NotFound(_) => 404,
            ApiError::Internal(_) => 500,
        }
    }

    pub open spec fn code(&self) -> Seq<char> {
        match *self {
            ApiError::BadRequest(_) => "bad_request"@,
            ApiError::UnprocessableEntity(_) => "unprocessable_entity"@,
            ApiError::ServiceUnavailable(_) => "plugin_unavailable"@,
            ApiError::BadGateway(_) => "bad_gateway"@,
            ApiError::NotFound(_) => "not_found"@,
            ApiError::Internal(_) => "internal_error"@,
        }
    }

    pub open spec fn message(&self) -> Seq<char> {
        match *self {
            ApiError::BadRequest(m) => m@,
            ApiError::UnprocessableEntity(m) => m@,
            ApiError::ServiceUnavailable(m) => m@,
            ApiError::BadGateway(m) => m@,
            ApiError::NotFound(m) => m@,
            ApiError::Internal(m) => m@,
        }
    }

    /// What the error is answered with.
    pub fn reply(self) -> (r: ErrorReply)
        ensures
            r.status == self.status(),
            r.code@ == self.code(),
            r.message@ == self.message(),
    {
        match self {
            ApiError::BadRequest(message) => ErrorReply {
                status: 400,
                code: "bad_request",
                message,
            },
            ApiError::UnprocessableEntity(message) => ErrorReply {
                status: 422,
                code: "unprocessable_entity",
                message,
            },
            ApiError::ServiceUnavailable(message) => ErrorReply {
                status: 503,
                code: "plugin_unavailable",
                message,
            },
            ApiError::BadGateway(message) => ErrorReply {
                status: 502,
                code: "bad_gateway",
                message,
            },
            ApiError::NotFound(message) => ErrorReply { status: 404, code: "not_found", message },
            ApiError::Internal(message) => ErrorReply {
                status: 500,
                code: "internal_error",
                message,
            },
        }
    }
}

/// Each kind of error has its own status: those of the request are in the four hundreds, those of
/// the server and its plugin in the five hundreds. The reply says what the error says.
pub proof fn law_errors_have_their_statuses(e: ApiError)
    ensures
        match e {
            ApiError::BadRequest(m) => e.status() == 400 && e.message() == m@,
            ApiError::NotFound(m) => e.status() == 404 && e.message() == m@,
            ApiError::UnprocessableEntity(m) => e.status() == 422 && e.message() == m@,
            ApiError::Internal(m) => e.status() == 500 && e.message() == m@,
            ApiError::BadGateway(m) => e.status() == 502 && e.message() == m@,
            ApiError::ServiceUnavailable(m) => e.status() == 503 && e.message() == m@,
        },
{
}

} // verus!
