//! Data model of the scanner: files, volumes, reports, raw traversal
//! entries, and the messages exchanged with the presentation layer.

use vstd::prelude::*;

verus! {

/// One regular file found during a scan. Size is kept in bytes; display
/// units are derived at formatting time and never stored.
#[derive(Clone, Debug)]
pub struct FileInfo {
    pub path: String,
    pub size_bytes: u64,
}

/// A scanned volume: identity, capacity accounting in bytes, and the
/// files found on it, sorted by descending size.
#[derive(Clone, Debug)]
pub struct DiskInfo {
    pub name: String,
    pub total_space: u64,
    pub used_space: u64,
    pub files: Vec<FileInfo>,
}

/// Metadata read for one traversal entry that could be statted.
#[derive(Clone, Debug)]
pub struct EntryMeta {
    pub is_file: bool,
    pub size_bytes: u64,
}

/// One entry delivered by the tree walker. `meta` is `None` when the
/// entry could not be listed or statted; such entries are skipped, never
/// reported as errors.
#[derive(Clone, Debug)]
pub struct RawEntry {
    pub path: String,
    pub meta: Option<EntryMeta>,
}

/// Everything the scan pipeline gathered for one volume before
/// aggregation: capacity figures and the raw traversal entries.
pub struct VolumeScan {
    pub name: String,
    pub total_space: u64,
    pub available_space: u64,
    pub entries: Vec<RawEntry>,
}

/// True of entries that become part of a report: successfully statted
/// regular files.
pub open spec fn is_regular_file(e: RawEntry) -> bool {
    e.meta matches Some(m) && m.is_file
}

/// A file sequence sorted non-increasing by size.
pub open spec fn sorted_desc(files: Seq<FileInfo>) -> bool {
    forall|i: int, j: int|
        0 <= i < j < files.len() ==> #[trigger] files[i].size_bytes >= #[trigger] files[j].size_bytes
}

/// Well-formed volume report: capacity accounting consistent and files
/// sorted by descending size.
pub open spec fn disk_wf(d: DiskInfo) -> bool {
    &&& d.used_space <= d.total_space
    &&& sorted_desc(d.files@)
}

} // verus!
