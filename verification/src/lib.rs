//! An embedded, log-structured key/value store in the Bitcask style.
//!
//! Every mutation is appended to a segment of the log as one self-delimited
//! record; an in-memory index maps each live key to the exact character range
//! of its most recent `SET` record. The store keeps a faithful in-memory image
//! of the log; a thin host layer persists that image to disk and feeds it back
//! at open time, so recovery, the write path, the read path and compaction are
//! all verified here against a single model: the map obtained by replaying the
//! log in segment order.

mod codec;
mod command;
mod errors;
mod kv;
pub mod laws;
mod rayon_pool;
mod thread_pool;

pub use codec::{decode_record, encode_command};
pub use command::Command;
pub use errors::KVStoreError;
pub use kv::{BufWriterWithPosition, CommandPosition, DirFile, KvStore, Segment, MAX_USELESS_SIZE};
pub use thread_pool::{RayonThreadPool, ThreadPool};
