[package]
name = "pz_launcher"
version = "0.1.0"
edition = "2021"
publish = false

[dependencies]
regex = "1"
serde = { version = "1", features = ["derive"] }
serde_json = "1"
sha2 = "0.10"
open = "5"
sysinfo = "0.30"
winreg = "0.52"
