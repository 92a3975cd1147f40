//! An embedded, log-structured key/value store for string keys and values.
//!
//! Every mutation appends a record to the active segment, an in-memory keydir
//! maps each live key to the location of its latest record, and compaction
//! rewrites the live records into a fresh segment once enough bytes are stale.
//! Segments are held as byte images; the effects that mirror them onto a
//! directory are queued for the embedding program to perform.
use vstd::prelude::*;

pub mod codec;
pub mod command;
pub mod effect;
pub mod error;
pub mod kv;
pub mod log;
pub mod naming;

pub use command::{CommandPos, CommandView, DataCommand, HintCommand};
pub use effect::Effect;
pub use error::KvsError;
pub use kv::KvStore;

verus! {

} // verus!
