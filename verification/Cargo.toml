[package]
name = "disk_scan"
version = "0.1.0"
edition = "2021"
publish = false

[dependencies]
sysinfo = "*"
walkdir = "*"
rayon = "*"

[dev-dependencies]
serde_json = "*"
csv = "*"
