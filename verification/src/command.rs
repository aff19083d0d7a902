//! The wire protocol's message types: one request and one response per
//! connection, each framed as a single line.

use vstd::prelude::*;

verus! {

/// A client request.
pub enum CommandRequest {
    Put { key: String, value: String },
    Remove { key: String },
    Get { key: String },
}

/// A server response.
pub enum CommandResponse {
    Success,
    Error { reason: String },
    Value { value: Option<String> },
    KeyNotFound,
}

/// The mathematical shape of a [`CommandRequest`].
pub enum RequestV {
    Put { key: Seq<char>, value: Seq<char> },
    Remove { key: Seq<char> },
    Get { key: Seq<char> },
}

/// The mathematical shape of a [`CommandResponse`].
pub enum ResponseV {
    Success,
    Error { reason: Seq<char> },
    Value { value: Option<Seq<char>> },
    KeyNotFound,
}

impl View for CommandRequest {
    type V = RequestV;

    open spec fn view(&self) -> RequestV {
        match self {
            CommandRequest::Put { key, value } => RequestV::Put { key: key@, value: value@ },
            CommandRequest::Remove { key } => RequestV::Remove { key: key@ },
            CommandRequest::Get { key } => RequestV::Get { key: key@ },
        }
    }
}

impl View for CommandResponse {
    type V = ResponseV;

    open spec fn view(&self) -> ResponseV {
        match self {
            CommandResponse::Success => ResponseV::Success,
            CommandResponse::Error { reason } => ResponseV::Error { reason: reason@ },
            CommandResponse::Value { value } => ResponseV::Value {
                value: match value {
                    Some(v) => Some(v@),
                    None => None,
                },
            },
            CommandResponse::KeyNotFound => ResponseV::KeyNotFound,
        }
    }
}

} // verus!
