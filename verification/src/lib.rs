//! Verified core of a disk-usage inventory tool.
//!
//! The library works on plain values handed in by a thin shell: volume
//! metadata and raw directory entries. It builds per-volume reports of
//! regular files sorted by descending size, offers filtered top-N views,
//! serializes reports to JSON and CSV, and drives the scan life cycle as
//! a state machine. All sizes are kept in bytes; derived units (MiB, GiB)
//! exist only in formatted output.

pub mod collect;
pub mod export;
pub mod machine;
pub mod model;
pub mod numfmt;
pub mod report;
pub mod text;
pub mod view;

use vstd::prelude::*;

verus! {

/// Bytes in one MiB.
pub const MIB: u64 = 1048576;

/// Bytes in one GiB.
pub const GIB: u64 = 1073741824;

} // verus!
