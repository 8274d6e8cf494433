[package]
name = "nyxip"
version = "0.1.0"
edition = "2021"
publish = false

[dependencies]
chrono = "=0.4.45"
dns-lookup = "=2.1.1"
egui = "=0.31.1"
open = "=5.4.5"
rust_xlsxwriter = "=0.102.0"
tokio = { version = "=1.54.1", features = ["full"] }
windows = { version = "0.58", features = ["Win32_Foundation", "Win32_NetworkManagement_IpHelper"] }
