//! An append-only, checksummed event log ("cube") with monotonic record ids,
//! crash recovery, content-hash deduplication of ingested files, a commit
//! protocol layered on the log, and a snapshot diff.
//!
//! The file format and every decision taken on it are verified; reading and
//! writing files is left to the caller, which hands the library plain values.

pub mod bytes;
pub mod chain;
pub mod clock;
pub mod codec;
pub mod commit;
pub mod diff;
pub mod event;
pub mod ingest;
pub mod log;
pub mod order;
pub mod precommit;
pub mod scan;
