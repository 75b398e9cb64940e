//! Verified core of a genomic variant-annotation track pipeline.
//!
//! Annotated variant records are coalesced into interval records, interval
//! records from several partitions are merged with duplicate removal, and
//! merged records are expanded into a fixed-step per-base track.

pub mod classify;
pub mod codec;
pub mod dedupe;
pub mod record;
pub mod severity;
pub mod stream;
pub mod textio;
pub mod track;
