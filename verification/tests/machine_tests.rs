use disk_scan::export::{export_to_csv, export_to_json};
use disk_scan::machine::{Action, DiskVisualizer, Message};
use disk_scan::model::{DiskInfo, FileInfo};
use disk_scan::report::build_report;
use disk_scan::text::{str_contains, str_ends_with};

fn one_disk() -> Vec<DiskInfo> {
    vec![DiskInfo {
        name: "d".to_string(),
        total_space: 1073741824,
        used_space: 1048576,
        files: vec![FileInfo { path: "/f".to_string(), size_bytes: 7 }],
    }]
}

#[test]
fn initial_state_is_idle_and_empty() {
    let s = DiskVisualizer::new();
    assert!(!s.scanning);
    assert!(s.disks.is_empty());
    assert!(s.error_message.is_none());
    assert!(s.scan_duration_ms.is_none());
    assert_eq!(s.scan_count, 0);
    assert_eq!(s.elapsed_secs, 0);
    assert_eq!(s.title(), "Disk Usage Visualizer");
}

#[test]
fn scan_enters_scanning_and_clears_stale_state() {
    let mut s = DiskVisualizer::new();
    s.error_message = Some("old".to_string());
    s.scan_duration_ms = Some(9);
    s.elapsed_secs = 4;
    let act = s.update(Message::Scan);
    assert!(matches!(act, Action::StartScan));
    assert!(s.scanning);
    assert!(s.error_message.is_none());
    assert!(s.scan_duration_ms.is_none());
    assert_eq!(s.elapsed_secs, 0);
}

#[test]
fn tick_advances_only_while_scanning() {
    let mut s = DiskVisualizer::new();
    s.update(Message::Tick);
    assert_eq!(s.elapsed_secs, 0);
    s.update(Message::Scan);
    s.update(Message::Tick);
    s.update(Message::Tick);
    assert_eq!(s.elapsed_secs, 2);
}

#[test]
fn completed_scan_is_applied_and_counted() {
    let mut s = DiskVisualizer::new();
    s.update(Message::Scan);
    let act = s.update(Message::Scanned(Ok((one_disk(), 1234))));
    assert!(matches!(act, Action::Stay));
    assert!(!s.scanning);
    assert_eq!(s.scan_count, 1);
    assert_eq!(s.scan_duration_ms, Some(1234));
    assert_eq!(s.disks.len(), 1);
    assert_eq!(s.disks[0].name, "d");
}

#[test]
fn failed_scan_shows_the_exact_error_message() {
    let mut s = DiskVisualizer::new();
    s.update(Message::Scan);
    let err = build_report(Vec::new()).expect_err("zero volumes");
    s.update(Message::Scanned(Err(err)));
    assert!(!s.scanning);
    assert_eq!(
        s.error_message.as_deref(),
        Some("Failed to retrieve disk information")
    );
    assert!(s.scan_duration_ms.is_none());
}

#[test]
fn result_after_stop_is_discarded_but_counted() {
    let mut s = DiskVisualizer::new();
    s.update(Message::Scan);
    s.update(Message::StopScan);
    assert!(!s.scanning);
    s.update(Message::Scanned(Ok((one_disk(), 55))));
    assert!(s.disks.is_empty());
    assert!(s.scan_duration_ms.is_none());
    assert_eq!(s.scan_count, 1);
}

#[test]
fn refresh_clears_duration_and_requests_a_scan() {
    let mut s = DiskVisualizer::new();
    s.scan_duration_ms = Some(77);
    let act = s.update(Message::Refresh);
    assert!(matches!(act, Action::RequestScan));
    assert!(s.scan_duration_ms.is_none());
}

#[test]
fn filter_changes_update_the_filters_only() {
    let mut s = DiskVisualizer::new();
    s.update(Message::FileTypeFilterChanged(".txt".to_string()));
    s.update(Message::FileNameFilterChanged("report".to_string()));
    assert_eq!(s.file_type_filter, ".txt");
    assert_eq!(s.file_name_filter, "report");
    assert!(!s.scanning);
}

#[test]
fn export_actions_carry_the_serialized_report() {
    let mut s = DiskVisualizer::new();
    s.disks = one_disk();
    match s.update(Message::ExportAsJson) {
        Action::WriteJson(text) => assert_eq!(text, export_to_json(&one_disk())),
        _ => panic!("expected a JSON write action"),
    }
    match s.update(Message::ExportAsCsv) {
        Action::WriteCsv(text) => assert_eq!(text, export_to_csv(&one_disk())),
        _ => panic!("expected a CSV write action"),
    }
}

#[test]
fn export_without_a_scan_writes_empty_documents() {
    let mut s = DiskVisualizer::new();
    match s.update(Message::ExportAsJson) {
        Action::WriteJson(text) => assert_eq!(text, "[]"),
        _ => panic!("expected a JSON write action"),
    }
    match s.update(Message::ExportAsCsv) {
        Action::WriteCsv(text) => assert_eq!(text, ""),
        _ => panic!("expected a CSV write action"),
    }
}

#[test]
fn export_outcome_fills_or_clears_the_error_slot() {
    let mut s = DiskVisualizer::new();
    s.update(Message::ExportCompleted(Err("disk full".to_string())));
    assert_eq!(s.error_message.as_deref(), Some("disk full"));
    s.update(Message::ExportCompleted(Ok(())));
    assert!(s.error_message.is_none());
}

#[test]
fn done_requests_quit_without_touching_state() {
    let mut s = DiskVisualizer::new();
    s.disks = one_disk();
    let act = s.update(Message::Done);
    assert!(matches!(act, Action::Quit));
    assert_eq!(s.disks.len(), 1);
}

#[test]
fn suffix_and_substring_tests_are_literal() {
    assert!(str_ends_with("photo.jpg", ".jpg"));
    assert!(!str_ends_with("photo.jpeg", ".jpg"));
    assert!(str_ends_with("anything", ""));
    assert!(!str_ends_with("a", "long-suffix"));
    assert!(str_contains("/home/user/report-2024.txt", "report"));
    assert!(!str_contains("/home/user/data.txt", "report"));
    assert!(str_contains("abc", ""));
    assert!(str_contains("abc", "abc"));
}
