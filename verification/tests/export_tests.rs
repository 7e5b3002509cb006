use disk_scan::export::{export_to_csv, export_to_json};
use disk_scan::model::{DiskInfo, FileInfo};

fn file(path: &str, size: u64) -> FileInfo {
    FileInfo { path: path.to_string(), size_bytes: size }
}

fn sample_disk() -> DiskInfo {
    DiskInfo {
        name: "disk1".to_string(),
        total_space: 100 * 1073741824,
        used_space: 40 * 1073741824,
        files: vec![file("/files/big", 2000 * 1048576), file("/files/small", 10 * 1048576)],
    }
}

#[test]
fn json_of_empty_report_is_empty_array() {
    let out = export_to_json(&Vec::new());
    assert_eq!(out, "[]");
    let parsed: serde_json::Value = serde_json::from_str(&out).unwrap();
    assert_eq!(parsed, serde_json::Value::Array(Vec::new()));
}

#[test]
fn csv_of_empty_report_has_zero_bytes() {
    let out = export_to_csv(&Vec::new());
    assert_eq!(out.len(), 0);
}

#[test]
fn json_round_trips_through_a_real_parser() {
    let disks = vec![sample_disk()];
    let out = export_to_json(&disks);
    let parsed: serde_json::Value = serde_json::from_str(&out).unwrap();
    let arr = parsed.as_array().unwrap();
    assert_eq!(arr.len(), 1);
    let v = &arr[0];
    assert_eq!(v["name"].as_str().unwrap(), "disk1");
    assert_eq!(v["total_space"].as_f64().unwrap(), 100.0);
    assert_eq!(v["used_space"].as_f64().unwrap(), 40.0);
    let files = v["files"].as_array().unwrap();
    assert_eq!(files.len(), 2);
    assert_eq!(files[0]["path"].as_str().unwrap(), "/files/big");
    assert_eq!(files[0]["size_mb"].as_f64().unwrap(), 2000.0);
    assert_eq!(files[1]["path"].as_str().unwrap(), "/files/small");
    assert_eq!(files[1]["size_mb"].as_f64().unwrap(), 10.0);
}

#[test]
fn json_numbers_keep_full_precision() {
    let disks = vec![DiskInfo {
        name: "d".to_string(),
        total_space: 1073741825, // one byte past a whole GiB
        used_space: 1,
        files: vec![file("/f", 1572864)], // 1.5 MiB
    }];
    let out = export_to_json(&disks);
    let parsed: serde_json::Value = serde_json::from_str(&out).unwrap();
    let v = &parsed.as_array().unwrap()[0];
    assert_eq!(v["total_space"].as_f64().unwrap(), 1073741825.0 / 1073741824.0);
    assert_eq!(v["used_space"].as_f64().unwrap(), 1.0 / 1073741824.0);
    assert_eq!(v["files"][0]["size_mb"].as_f64().unwrap(), 1.5);
}

#[test]
fn json_escapes_special_characters() {
    let disks = vec![DiskInfo {
        name: "we\"ird\\name".to_string(),
        total_space: 1,
        used_space: 0,
        files: vec![file("/tab\there\nand newline", 1)],
    }];
    let out = export_to_json(&disks);
    let parsed: serde_json::Value = serde_json::from_str(&out).unwrap();
    let v = &parsed.as_array().unwrap()[0];
    assert_eq!(v["name"].as_str().unwrap(), "we\"ird\\name");
    assert_eq!(v["files"][0]["path"].as_str().unwrap(), "/tab\there\nand newline");
}

#[test]
fn exporting_twice_is_byte_identical() {
    let disks = vec![sample_disk()];
    assert_eq!(export_to_json(&disks), export_to_json(&disks));
    assert_eq!(export_to_csv(&disks), export_to_csv(&disks));
}

#[test]
fn csv_rows_match_the_documented_columns() {
    let out = export_to_csv(&vec![sample_disk()]);
    assert_eq!(
        out,
        "disk1,100.00,40.00,/files/big,1.95,GB\ndisk1,100.00,40.00,/files/small,10.00,MB\n"
    );
}

#[test]
fn csv_round_trips_through_a_real_parser() {
    let mut disk = sample_disk();
    disk.name = "my \"disk\", one".to_string();
    disk.files = vec![file("/comma,path", 10 * 1048576)];
    let out = export_to_csv(&vec![disk]);
    let mut rdr = csv::ReaderBuilder::new()
        .has_headers(false)
        .from_reader(out.as_bytes());
    let records: Vec<csv::StringRecord> = rdr.records().map(|r| r.unwrap()).collect();
    assert_eq!(records.len(), 1);
    let r = &records[0];
    assert_eq!(&r[0], "my \"disk\", one");
    assert_eq!(&r[1], "100.00");
    assert_eq!(&r[2], "40.00");
    assert_eq!(&r[3], "/comma,path");
    assert_eq!(&r[4], "10.00");
    assert_eq!(&r[5], "MB");
}

#[test]
fn csv_rounds_to_two_decimals() {
    let disks = vec![DiskInfo {
        name: "d".to_string(),
        total_space: 1610612736, // 1.5 GiB
        used_space: 805306368,   // 0.75 GiB
        files: vec![file("/f", 1048576 + 5243)], // just past 1.005 MiB, rounds up
    }];
    let out = export_to_csv(&disks);
    assert_eq!(out, "d,1.50,0.75,/f,1.01,MB\n");
}
