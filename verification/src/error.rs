//! The error type shared by the store, the engines and the protocol layer.

use vstd::prelude::*;

verus! {

use vstd::string::StringExecFns;

/// Everything that can go wrong in the store or on the wire.
///
/// Errors coming out of the embedded `sled` backend are carried as their
/// rendered message, so that the rest of the library stays free of opaque
/// foreign values.
#[derive(Debug)]
pub enum KvStoreError {
    /// `remove` was asked for a key that is not in the keydir.
    KeyNotFound { key: String },
    /// A required command-line parameter was missing.
    CliError { parameter: String, required_by: String },
    /// The command line named no known subcommand.
    CliUnknownCommand,
    /// An internal read-handle lookup missed.
    InvalidFileHandler,
    /// The current buffered writer could not be unwrapped.
    IntoInner,
    /// An I/O error, rendered to its message.
    IOError { message: String },
    /// A record or message failed to encode or decode.
    SerdeError { message: String },
    /// The server reported a request error.
    RequestError { reason: String },
    /// The embedded `sled` backend failed; the message is sled's own.
    SledError { message: String },
}

impl KvStoreError {
    /// What each error renders to.
    pub open spec fn message_spec(e: KvStoreError) -> Seq<char> {
        match e {
            KvStoreError::KeyNotFound { key } => "key not found: "@ + key@,
            KvStoreError::CliError { parameter, required_by } => "parameter not found: "@
                + parameter@ + ", required by command "@ + required_by@,
            KvStoreError::CliUnknownCommand => "unknown command"@,
            KvStoreError::InvalidFileHandler => "internal error: invalid file handler"@,
            KvStoreError::IntoInner => "internal error: failed to acquire file"@,
            KvStoreError::IOError { message } => message@,
            KvStoreError::SerdeError { message } => message@,
            KvStoreError::RequestError { reason } => reason@,
            KvStoreError::SledError { message } => message@,
        }
    }

    /// A human-readable rendering of the error.
    pub fn message(&self) -> (r: String)
        ensures
            r@ == Self::message_spec(*self),
    {
        match self {
            KvStoreError::KeyNotFound { key } => {
                let mut m = String::from_str("key not found: ");
                m.append(key.as_str());
                m
            },
            KvStoreError::CliError { parameter, required_by } => {
                let mut m = String::from_str("parameter not found: ");
                m.append(parameter.as_str());
                m.append(", required by command ");
                m.append(required_by.as_str());
                m
            },
            KvStoreError::CliUnknownCommand => String::from_str("unknown command"),
            KvStoreError::InvalidFileHandler => {
                String::from_str("internal error: invalid file handler")
            },
            KvStoreError::IntoInner => String::from_str("internal error: failed to acquire file"),
            KvStoreError::IOError { message } => message.clone(),
            KvStoreError::SerdeError { message } => message.clone(),
            KvStoreError::RequestError { reason } => reason.clone(),
            KvStoreError::SledError { message } => message.clone(),
        }
    }
}

} // verus!
