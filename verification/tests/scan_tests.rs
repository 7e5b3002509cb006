use disk_scan::collect::{collect, sort_files_desc};
use disk_scan::model::{EntryMeta, FileInfo, RawEntry, VolumeScan};
use disk_scan::report::build_report;
use disk_scan::view::{display_size, filter_files, top_files, usage_percent};

fn entry(path: &str, is_file: bool, size: u64) -> RawEntry {
    RawEntry {
        path: path.to_string(),
        meta: Some(EntryMeta { is_file, size_bytes: size }),
    }
}

fn failed_entry(path: &str) -> RawEntry {
    RawEntry { path: path.to_string(), meta: None }
}

fn file(path: &str, size: u64) -> FileInfo {
    FileInfo { path: path.to_string(), size_bytes: size }
}

const MIB: u64 = 1048576;
const GIB: u64 = 1073741824;

#[test]
fn collect_keeps_only_regular_files() {
    let entries = vec![
        entry("/a", true, 10),
        entry("/dir", false, 0),
        failed_entry("/denied"),
        entry("/b", true, 20),
    ];
    let files = collect(entries);
    assert_eq!(files.len(), 2);
    assert_eq!(files[0].path, "/a");
    assert_eq!(files[0].size_bytes, 10);
    assert_eq!(files[1].path, "/b");
    assert_eq!(files[1].size_bytes, 20);
}

#[test]
fn collect_count_is_order_independent() {
    let a = vec![entry("/a", true, 1), entry("/b", true, 2), entry("/c", false, 0)];
    let b = vec![entry("/c", false, 0), entry("/b", true, 2), entry("/a", true, 1)];
    assert_eq!(collect(a).len(), 2);
    assert_eq!(collect(b).len(), 2);
}

#[test]
fn sort_is_descending_by_size() {
    let mut files = vec![file("/small", 1), file("/big", 500), file("/mid", 42)];
    sort_files_desc(&mut files);
    let sizes: Vec<u64> = files.iter().map(|f| f.size_bytes).collect();
    assert_eq!(sizes, vec![500, 42, 1]);
}

#[test]
fn zero_capacity_volume_is_skipped() {
    let volumes = vec![
        VolumeScan {
            name: "empty".to_string(),
            total_space: 0,
            available_space: 0,
            entries: vec![entry("/x", true, 1)],
        },
        VolumeScan {
            name: "real".to_string(),
            total_space: 100 * GIB,
            available_space: 60 * GIB,
            entries: vec![entry("/y", true, 1)],
        },
    ];
    let disks = build_report(volumes).expect("one volume qualifies");
    assert_eq!(disks.len(), 1);
    assert_eq!(disks[0].name, "real");
}

#[test]
fn no_qualifying_volume_fails_with_fixed_message() {
    let err = build_report(Vec::new()).expect_err("no volumes");
    assert_eq!(err, "Failed to retrieve disk information");
    let err2 = build_report(vec![VolumeScan {
        name: "virtual".to_string(),
        total_space: 0,
        available_space: 0,
        entries: Vec::new(),
    }])
    .expect_err("zero capacity never qualifies");
    assert_eq!(err2, "Failed to retrieve disk information");
}

#[test]
fn scenario_full_scan_sorted_and_displayed() {
    let volumes = vec![VolumeScan {
        name: "disk1".to_string(),
        total_space: 100 * GIB,
        available_space: 60 * GIB,
        entries: vec![
            entry("/files/mid", true, 500 * MIB),
            entry("/files/small", true, 10 * MIB),
            entry("/files/big", true, 2000 * MIB),
        ],
    }];
    let disks = build_report(volumes).expect("volume qualifies");
    assert_eq!(disks.len(), 1);
    let d = &disks[0];
    assert_eq!(d.total_space, 100 * GIB);
    assert_eq!(d.used_space, 40 * GIB);
    let order: Vec<(String, u64)> =
        d.files.iter().map(|f| (f.path.clone(), f.size_bytes)).collect();
    assert_eq!(
        order,
        vec![
            ("/files/big".to_string(), 2000 * MIB),
            ("/files/mid".to_string(), 500 * MIB),
            ("/files/small".to_string(), 10 * MIB),
        ]
    );
    let top = top_files(&d.files, &String::new(), &String::new());
    assert_eq!(top.len(), 3);
    let (value, unit) = display_size(top[0].size_bytes);
    assert_eq!(value, "1.95");
    assert_eq!(unit, "GB");
    let (value, unit) = display_size(top[1].size_bytes);
    assert_eq!(value, "500.00");
    assert_eq!(unit, "MB");
    assert_eq!(usage_percent(d), 40);
}

#[test]
fn filters_are_literal_and_independent() {
    let files = vec![
        file("/a/report.txt", 1),
        file("/b/data.jpg", 2),
        file("/c/report.jpg", 3),
    ];
    let both = filter_files(&files, &".jpg".to_string(), &"report".to_string());
    assert_eq!(both.len(), 1);
    assert_eq!(both[0].path, "/c/report.jpg");
    let ext_only = filter_files(&files, &".jpg".to_string(), &String::new());
    assert_eq!(ext_only.len(), 2);
    let name_only = filter_files(&files, &String::new(), &"report".to_string());
    assert_eq!(name_only.len(), 2);
}

#[test]
fn empty_filters_keep_every_file() {
    let files = vec![file("/a", 1), file("/b", 2), file("/c", 3)];
    let kept = filter_files(&files, &String::new(), &String::new());
    assert_eq!(kept.len(), 3);
    let paths: Vec<String> = kept.iter().map(|f| f.path.clone()).collect();
    assert_eq!(paths, vec!["/a", "/b", "/c"]);
}

#[test]
fn top_files_shows_at_most_five_largest() {
    let files: Vec<FileInfo> = (0u64..8).map(|i| file(&format!("/f{}", i), i * 10)).collect();
    let top = top_files(&files, &String::new(), &String::new());
    assert_eq!(top.len(), 5);
    let sizes: Vec<u64> = top.iter().map(|f| f.size_bytes).collect();
    assert_eq!(sizes, vec![70, 60, 50, 40, 30]);
}

#[test]
fn used_space_is_clamped_to_total() {
    let disks = build_report(vec![VolumeScan {
        name: "odd".to_string(),
        total_space: 10,
        available_space: 25,
        entries: Vec::new(),
    }])
    .expect("positive capacity qualifies");
    assert_eq!(disks[0].used_space, 0);
}
