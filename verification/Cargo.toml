[package]
name = "process_memory"
version = "0.1.0"
edition = "2021"
publish = false

[dependencies]
anyhow = "1"
flutter_rust_bridge = "2"
itertools = "*"
sysinfo = "*"
tree-ds = "*"
