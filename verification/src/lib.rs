//! The merge engine of a thin-provisioning pool: the mappings of an
//! external snapshot laid over those of its origin, as one device.
//!
//! The library does no I/O. A program reads and decodes the leaves that an
//! iterator asks for, supplies them, and writes the runs that come out:
//!
//! - `mapping_iterator` walks the entries of one device, a batch of leaves
//!   at a time, and coalesces them into runs;
//! - `stream` looks one run ahead, so that pieces can be bitten off it;
//! - `merge` steps through two streams and emits the merged runs;
//! - `pipeline` packs the runs into batches for the writer and counts the
//!   mapped blocks;
//! - `metadata` decides what is to be written, and builds the records of
//!   the output.
//!
//! `coalesce` and `overlay` say what the runs of a device and the merged
//! runs of two devices are, and prove what holds of them; `drive` proves
//! that a program which drives the pipeline to its end gets those runs.

pub mod coalesce;
pub mod drive;
pub mod error;
pub mod mapping;
pub mod mapping_iterator;
pub mod merge;
pub mod metadata;
pub mod overlay;
pub mod pipeline;
pub mod stream;
