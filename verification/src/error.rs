//! What a failed request is answered with.

use vstd::prelude::*;
use vstd::string::*;

verus! {

/// How a request ended.
#[derive(Clone, PartialEq, Debug)]
pub enum ErrorCode {
    Success,
    InternalError(String),
}

impl ErrorCode {
    /// What the client is told.
    pub open spec fn text(self) -> Seq<char> {
        match self {
            ErrorCode::Success => "Ok"@,
            ErrorCode::InternalError(msg) => "Internal error. Reason: "@ + msg@,
        }
    }

    /// Whether this is an internal error with a given message.
    pub open spec fn says(self, msg: Seq<char>) -> bool {
        self matches ErrorCode::InternalError(m) && m@ == msg
    }

    /// What the client is told.
    pub fn to_text(&self) -> (r: String)
        ensures
            r@ == self.text(),
            self is Success ==> r@ == "Ok"@,
            self matches ErrorCode::InternalError(msg) ==> r@ == "Internal error. Reason: "@ + msg@,
    {
        match self {
            ErrorCode::Success => "Ok".to_owned(),
            ErrorCode::InternalError(msg) => {
                let mut r = "Internal error. Reason: ".to_owned();
                r.append(msg.as_str());
                r
            },
        }
    }

    /// An error of the video cache or of reading a request.
    pub fn from_error(reason: &str) -> (r: ErrorCode)
        ensures
            r.says("Internal error "@ + reason@),
            r matches ErrorCode::InternalError(msg) && msg@ == "Internal error "@ + reason@,
    {
        let mut msg = "Internal error ".to_owned();
        msg.append(reason);
        ErrorCode::InternalError(msg)
    }

    /// An error of work that was handed to another thread.
    pub fn from_blocking_error(reason: &str) -> (r: ErrorCode)
        ensures
            r.says("Blocking read error "@ + reason@),
            r matches ErrorCode::InternalError(msg) && msg@ == "Blocking read error "@ + reason@,
    {
        let mut msg = "Blocking read error ".to_owned();
        msg.append(reason);
        ErrorCode::InternalError(msg)
    }

    /// An error of input or output.
    pub fn from_io_error(reason: &str) -> (r: ErrorCode)
        ensures
            r.says("IO error "@ + reason@),
            r matches ErrorCode::InternalError(msg) && msg@ == "IO error "@ + reason@,
    {
        let mut msg = "IO error ".to_owned();
        msg.append(reason);
        ErrorCode::InternalError(msg)
    }
}

} // verus!
