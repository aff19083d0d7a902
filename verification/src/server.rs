//! The server's decision core: from one request line to one response line.
//!
//! Accepting connections, reading and writing them is the caller's work;
//! everything between — parsing, dispatch, outcome conversion, encoding —
//! happens here.

use vstd::prelude::*;

verus! {

use crate::codec::encode_response;
use crate::codec::parse_request;
use crate::command::CommandRequest;
use crate::command::CommandResponse;
use crate::command::RequestV;
use crate::command::ResponseV;
use crate::engine::KvsEngine;
use vstd::string::StringExecFns;
use crate::error::KvStoreError;

/// How a response may answer a request, given the engine's pairs before
/// (`pre`) and after (`post`): a `Get` answers with the value or its
/// absence and moves nothing; a `Set` answers success exactly when the pair
/// was stored; a `Remove` answers success when the key was dropped and
/// `KeyNotFound` when there was nothing to drop. An engine failure may be
/// reported as an error instead, but even then only the request's own key
/// may have moved: a failed `Get` moved nothing, a failed `Set` left the
/// pairs alone or stored the one pair, a failed `Remove` left them alone or
/// dropped the one key.
pub open spec fn request_outcome(
    pre: Map<Seq<char>, Seq<char>>,
    post: Map<Seq<char>, Seq<char>>,
    req: RequestV,
    resp: ResponseV,
) -> bool {
    match req {
        RequestV::Get { key } => match resp {
            ResponseV::Value { value } => match value {
                Some(v) => pre.dom().contains(key) && v == pre[key] && post == pre,
                None => !pre.dom().contains(key) && post == pre,
            },
            ResponseV::Error { .. } => post == pre,
            _ => false,
        },
        RequestV::Put { key, value } => match resp {
            ResponseV::Success => post == pre.insert(key, value),
            ResponseV::Error { .. } => post == pre || post == pre.insert(key, value),
            _ => false,
        },
        RequestV::Remove { key } => match resp {
            ResponseV::Success => pre.dom().contains(key) && post == pre.remove(key),
            ResponseV::KeyNotFound => !pre.dom().contains(key) && post == pre,
            ResponseV::Error { .. } => post == pre || post == pre.remove(key),
            _ => false,
        },
    }
}

/// The one response a lookup outcome is answered with: the value (present
/// or not) on success, the rendered failure otherwise.
pub fn get_response(r: Result<Option<String>, KvStoreError>) -> (resp: CommandResponse)
    ensures
        r matches Ok(v) ==> resp@ == (ResponseV::Value {
            value: match v {
                Some(s) => Some(s@),
                None => None,
            },
        }),
        r matches Err(e) ==> resp@ == (ResponseV::Error {
            reason: KvStoreError::message_spec(e),
        }),
{
    match r {
        Ok(value) => CommandResponse::Value { value },
        Err(e) => CommandResponse::Error { reason: e.message() },
    }
}

/// The one response a set outcome is answered with: success, or the
/// rendered failure.
pub fn set_response(r: Result<(), KvStoreError>) -> (resp: CommandResponse)
    ensures
        r is Ok ==> resp@ == ResponseV::Success,
        r matches Err(e) ==> resp@ == (ResponseV::Error {
            reason: KvStoreError::message_spec(e),
        }),
{
    match r {
        Ok(_) => CommandResponse::Success,
        Err(e) => CommandResponse::Error { reason: e.message() },
    }
}

/// The one response a remove outcome is answered with: success, the
/// protocol's `KeyNotFound`, or the rendered failure.
pub fn remove_response(r: Result<(), KvStoreError>) -> (resp: CommandResponse)
    ensures
        r is Ok ==> resp@ == ResponseV::Success,
        r matches Err(e) ==> resp@ == (if e is KeyNotFound {
            ResponseV::KeyNotFound
        } else {
            ResponseV::Error { reason: KvStoreError::message_spec(e) }
        }),
{
    match r {
        Ok(_) => CommandResponse::Success,
        Err(e) => match e {
            KvStoreError::KeyNotFound { .. } => CommandResponse::KeyNotFound,
            _ => CommandResponse::Error { reason: e.message() },
        },
    }
}

/// Dispatches one request to the engine and converts the outcome into the
/// response the protocol prescribes. The three conversion functions above
/// pin the response for every engine outcome; `request_outcome` relates the
/// response back to the engine's pairs.
pub fn process_request<E: KvsEngine>(engine: &mut E, req: CommandRequest) -> (resp:
    CommandResponse)
    requires
        old(engine).inv(),
    ensures
        final(engine).inv(),
        request_outcome(old(engine).live(), final(engine).live(), req@, resp@),
{
    match req {
        CommandRequest::Get { key } => get_response(engine.get(key)),
        CommandRequest::Put { key, value } => set_response(engine.set(key, value)),
        CommandRequest::Remove { key } => remove_response(engine.remove(key)),
    }
}

/// One connection's worth of work: parses the request off the line,
/// dispatches it, and encodes the response. An unparseable line becomes an
/// `Error` response and touches the engine not at all; whatever follows the
/// request on the line (its newline) is ignored.
pub fn handle_request_line<E: KvsEngine>(engine: &mut E, line: &Vec<char>) -> (r: (
    CommandResponse,
    Vec<char>,
))
    requires
        old(engine).inv(),
    ensures
        final(engine).inv(),
        r.1@ == encode_response(r.0@),
        match parse_request(line@) {
            Some(pr) => request_outcome(old(engine).live(), final(engine).live(), pr.0, r.0@),
            None => r.0@ is Error && final(engine).live() == old(engine).live(),
        },
{
    let resp = match crate::codec::parse_request_exec(line, 0) {
        Some((req, _used)) => {
            proof {
                assert(line@.skip(0) =~= line@);
            }
            process_request(engine, req)
        },
        None => {
            proof {
                assert(line@.skip(0) =~= line@);
            }
            CommandResponse::Error { reason: String::from_str("invalid request") }
        },
    };
    let out = crate::codec::encode_response_exec(&resp);
    (resp, out)
}

/// What the client does with one response: the line to show (if any),
/// the stream it goes to, and the process exit code.
pub struct ClientAction {
    pub message: Option<String>,
    pub to_stderr: bool,
    pub exit_code: u8,
}

/// How the client renders a response: a value is printed; an absent value
/// or the protocol's `KeyNotFound` prints `Key not found` (the latter with
/// exit code 1, as after a failed remove); a reported error goes to the
/// error stream with exit code 1; plain success prints nothing.
pub fn render_response(resp: &CommandResponse) -> (r: ClientAction)
    ensures
        resp@ is Success ==> r.message is None && !r.to_stderr && r.exit_code == 0,
        resp@ matches ResponseV::Value { value } ==> !r.to_stderr && r.exit_code == 0 && (match value {
            Some(v) => r.message matches Some(m) && m@ == v,
            None => r.message matches Some(m) && m@ == "Key not found"@,
        }),
        resp@ is KeyNotFound ==> (r.message matches Some(m) && m@ == "Key not found"@)
            && !r.to_stderr && r.exit_code == 1,
        resp@ matches ResponseV::Error { reason } ==> (r.message matches Some(m) && m@
            == reason) && r.to_stderr && r.exit_code == 1,
{
    match resp {
        CommandResponse::Success => ClientAction { message: None, to_stderr: false, exit_code: 0 },
        CommandResponse::Value { value } => match value {
            Some(v) => ClientAction {
                message: Some(v.clone()),
                to_stderr: false,
                exit_code: 0,
            },
            None => ClientAction {
                message: Some(String::from_str("Key not found")),
                to_stderr: false,
                exit_code: 0,
            },
        },
        CommandResponse::KeyNotFound => ClientAction {
            message: Some(String::from_str("Key not found")),
            to_stderr: false,
            exit_code: 1,
        },
        CommandResponse::Error { reason } => ClientAction {
            message: Some(reason.clone()),
            to_stderr: true,
            exit_code: 1,
        },
    }
}

/// Whether a working directory that remembers `current` may be served with
/// engine `selected`: yes when nothing is remembered, or when they agree.
pub open spec fn engine_allowed_spec(current: Option<Seq<char>>, selected: Seq<char>) -> bool {
    match current {
        None => true,
        Some(c) => c == selected,
    }
}

/// The engine-switching safety check: a directory once used with one engine
/// may not be reopened with another.
pub fn engine_allowed(current: &Option<String>, selected: &String) -> (r: bool)
    ensures
        r == engine_allowed_spec(
            match current {
                Some(c) => Some(c@),
                None => None,
            },
            selected@,
        ),
{
    match current {
        None => true,
        Some(c) => c.eq(selected),
    }
}

} // verus!
