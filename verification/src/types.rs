//! The request and response bodies of the HTTP interface.

use vstd::prelude::*;

verus! {

/// The body of a relay request.
#[derive(Debug)]
pub struct RequestPayload {
    pub subject: String,
    pub message: String,
    /// Addresses the caller would like the message sent to.
    pub recipients: Option<Vec<String>>,
}

impl RequestPayload {
    /// The addresses the caller supplied, if any, as sequences of characters.
    pub open spec fn supplied(&self) -> Option<Seq<Seq<char>>> {
        match self.recipients {
            Some(list) => Some(list.deep_view()),
            None => None,
        }
    }
}

/// The body of every error response.
#[derive(Debug)]
pub struct ApiError {
    pub error: String,
    pub message: String,
}

/// The body of a success response.
#[derive(Debug)]
pub struct ApiMessage {
    pub message: String,
}

impl ApiError {
    /// The body that answers a request for which there is no route.
    pub fn not_found(method: &str, path: &str) -> (body: ApiError)
        ensures
            body.error@ == "NotFound"@,
            body.message@ == "No route for "@ + method@ + " "@ + path@,
    {
        let mut message = String::from_str("No route for ");
        message.append(method);
        message.append(" ");
        message.append(path);
        ApiError { error: String::from_str("NotFound"), message }
    }
}

} // verus!
