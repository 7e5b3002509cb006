//! The scan life cycle as a state machine: the aggregator's state, the
//! requests and results it receives, and the action the surrounding shell
//! must perform after each step. The shell owns the clock, the threads
//! and the files; every decision is made here.

use vstd::prelude::*;
use crate::export::{csv_report, export_to_csv, export_to_json, json_report};
use crate::model::DiskInfo;

verus! {

/// The requests and results the aggregator reacts to. Scan results and
/// export outcomes arrive asynchronously from the background pipeline.
pub enum Message {
    Scan,
    StopScan,
    Scanned(Result<(Vec<DiskInfo>, u64), String>),
    Refresh,
    FileTypeFilterChanged(String),
    FileNameFilterChanged(String),
    ExportAsJson,
    ExportAsCsv,
    ExportCompleted(Result<(), String>),
    Done,
    Tick,
}

/// What the shell must do after a step: nothing, start the scan pipeline,
/// issue a fresh Scan request, write an export file, or quit.
pub enum Action {
    Stay,
    StartScan,
    RequestScan,
    WriteJson(String),
    WriteCsv(String),
    Quit,
}

/// The aggregator's state. Durations are milliseconds, the elapsed
/// progress counter whole seconds; the scan counter counts finished
/// pipeline runs and saturates rather than wrap.
pub struct DiskVisualizer {
    pub disks: Vec<DiskInfo>,
    pub scanning: bool,
    pub error_message: Option<String>,
    pub scan_duration_ms: Option<u64>,
    pub scan_count: u64,
    pub file_type_filter: String,
    pub file_name_filter: String,
    pub elapsed_secs: u64,
}

/// A counter bumped by one, staying put at its ceiling.
pub open spec fn bumped(n: u64) -> u64 {
    if n < u64::MAX {
        (n + 1) as u64
    } else {
        u64::MAX
    }
}

impl DiskVisualizer {
    /// The initial state: no report, not scanning, no error, counters at
    /// zero, empty filters.
    pub fn new() -> (s: Self)
        ensures
            s.disks@.len() == 0,
            !s.scanning,
            s.error_message is None,
            s.scan_duration_ms is None,
            s.scan_count == 0,
            s.file_type_filter@.len() == 0,
            s.file_name_filter@.len() == 0,
            s.elapsed_secs == 0,
    {
        DiskVisualizer {
            disks: Vec::new(),
            scanning: false,
            error_message: None,
            scan_duration_ms: None,
            scan_count: 0,
            file_type_filter: String::new(),
            file_name_filter: String::new(),
            elapsed_secs: 0,
        }
    }

    /// The window title of the tool.
    pub fn title(&self) -> (t: String)
        ensures
            t@ == "Disk Usage Visualizer"@,
    {
        "Disk Usage Visualizer".to_owned()
    }

    /// One step of the life cycle. Scan enters the scanning state and
    /// clears stale results; StopScan clears only the visible flag, and a
    /// result arriving while not scanning is counted but discarded;
    /// Scanned applies the result and bumps the scan counter; Refresh
    /// drops the stale duration and asks for a fresh Scan; Tick advances
    /// the progress clock only while scanning; the export requests leave
    /// the state alone and hand the serialized report to the shell; an
    /// export outcome fills or clears the single error slot; Done quits.
    pub fn update(&mut self, msg: Message) -> (act: Action)
        ensures
            match msg {
                Message::Scan => {
                    &&& final(self).scanning
                    &&& final(self).elapsed_secs == 0
                    &&& final(self).error_message is None
                    &&& final(self).scan_duration_ms is None
                    &&& final(self).disks == old(self).disks
                    &&& final(self).scan_count == old(self).scan_count
                    &&& final(self).file_type_filter == old(self).file_type_filter
                    &&& final(self).file_name_filter == old(self).file_name_filter
                    &&& act is StartScan
                },
                Message::StopScan => {
                    &&& !final(self).scanning
                    &&& *final(self) == DiskVisualizer { scanning: false, ..*old(self) }
                    &&& act is Stay
                },
                Message::Scanned(res) => {
                    &&& !final(self).scanning
                    &&& final(self).scan_count == bumped(old(self).scan_count)
                    &&& final(self).file_type_filter == old(self).file_type_filter
                    &&& final(self).file_name_filter == old(self).file_name_filter
                    &&& final(self).elapsed_secs == old(self).elapsed_secs
                    &&& if old(self).scanning {
                        match res {
                            Ok((disks, duration_ms)) => {
                                &&& final(self).disks == disks
                                &&& final(self).scan_duration_ms == Some(duration_ms)
                                &&& final(self).error_message == old(self).error_message
                            },
                            Err(e) => {
                                &&& final(self).error_message == Some(e)
                                &&& final(self).disks == old(self).disks
                                &&& final(self).scan_duration_ms == old(self).scan_duration_ms
                            },
                        }
                    } else {
                        // a result arriving after Stop is discarded
                        &&& final(self).disks == old(self).disks
                        &&& final(self).scan_duration_ms == old(self).scan_duration_ms
                        &&& final(self).error_message == old(self).error_message
                    }
                    &&& act is Stay
                },
                Message::Refresh => {
                    &&& *final(self) == DiskVisualizer {
                        scan_duration_ms: None,
                        ..*old(self)
                    }
                    &&& act is RequestScan
                },
                Message::FileTypeFilterChanged(f) => {
                    &&& *final(self) == DiskVisualizer { file_type_filter: f, ..*old(self) }
                    &&& act is Stay
                },
                Message::FileNameFilterChanged(f) => {
                    &&& *final(self) == DiskVisualizer { file_name_filter: f, ..*old(self) }
                    &&& act is Stay
                },
                Message::ExportAsJson => {
                    &&& *final(self) == *old(self)
                    &&& act matches Action::WriteJson(text) && text@ == json_report(
                        old(self).disks@,
                    )
                },
                Message::ExportAsCsv => {
                    &&& *final(self) == *old(self)
                    &&& act matches Action::WriteCsv(text) && text@ == csv_report(
                        old(self).disks@,
                    )
                },
                Message::ExportCompleted(res) => {
                    &&& *final(self) == DiskVisualizer {
                        error_message: if res is Err {
                            Some(res->Err_0)
                        } else {
                            None
                        },
                        ..*old(self)
                    }
                    &&& act is Stay
                },
                Message::Done => {
                    &&& *final(self) == *old(self)
                    &&& act is Quit
                },
                Message::Tick => {
                    &&& *final(self) == DiskVisualizer {
                        elapsed_secs: if old(self).scanning {
                            bumped(old(self).elapsed_secs)
                        } else {
                            old(self).elapsed_secs
                        },
                        ..*old(self)
                    }
                    &&& act is Stay
                },
            },
    {
        match msg {
            Message::Scan => {
                self.scanning = true;
                self.elapsed_secs = 0;
                self.error_message = None;
                self.scan_duration_ms = None;
                Action::StartScan
            },
            Message::StopScan => {
                self.scanning = false;
                Action::Stay
            },
            Message::Scanned(res) => {
                let was_scanning = self.scanning;
                self.scanning = false;
                if self.scan_count < u64::MAX {
                    self.scan_count = self.scan_count + 1;
                }
                if was_scanning {
                    match res {
                        Ok((disks, duration_ms)) => {
                            self.disks = disks;
                            self.scan_duration_ms = Some(duration_ms);
                        },
                        Err(e) => {
                            self.error_message = Some(e);
                        },
                    }
                }
                Action::Stay
            },
            Message::Refresh => {
                self.scan_duration_ms = None;
                Action::RequestScan
            },
            Message::FileTypeFilterChanged(f) => {
                self.file_type_filter = f;
                Action::Stay
            },
            Message::FileNameFilterChanged(f) => {
                self.file_name_filter = f;
                Action::Stay
            },
            Message::ExportAsJson => {
                Action::WriteJson(export_to_json(&self.disks))
            },
            Message::ExportAsCsv => {
                Action::WriteCsv(export_to_csv(&self.disks))
            },
            Message::ExportCompleted(res) => {
                self.error_message = match res {
                    Ok(()) => None,
                    Err(e) => Some(e),
                };
                Action::Stay
            },
            Message::Done => {
                Action::Quit
            },
            Message::Tick => {
                if self.scanning {
                    if self.elapsed_secs < u64::MAX {
                        self.elapsed_secs = self.elapsed_secs + 1;
                    }
                }
                Action::Stay
            },
        }
    }
}

} // verus!
