//! A persistent, log-structured key-value store with an in-memory index,
//! together with the line-framed request/response protocol that exposes it.
//!
//! The store keeps an append-only log split into numbered generation files;
//! the keydir maps each live key to the generation and offset of its newest
//! record. Everything the store decides — the record codec, replay on open,
//! the write and read paths, compaction, the wire protocol, the
//! engine-switch check — is verified here. The store holds each generation
//! file's contents and queues every change to them as a [`store::DiskAction`];
//! the caller mirrors those actions onto the real directory and hands the
//! file contents back at the next open. What cannot be verified — sockets,
//! the file system, the command line — stays outside, against these
//! contracts.

use vstd::prelude::*;

pub mod backend;
pub mod codec;
pub mod command;
pub mod engine;
pub mod error;
pub mod gendir;
pub mod keydir;
pub mod log;
pub mod mem;
pub mod replay;
pub mod server;
pub mod sled_engine;
pub mod store;

pub use command::CommandRequest;
pub use command::CommandResponse;
pub use engine::KvsEngine;
pub use error::KvStoreError;
pub use log::Command;
pub use sled_engine::SledEngine;
pub use store::KvStore;

verus! {

pub type Result<T> = core::result::Result<T, KvStoreError>;

} // verus!
