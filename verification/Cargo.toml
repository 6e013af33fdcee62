[package]
name = "pathlight_core"
version = "0.1.0"
edition = "2021"
publish = false

[dependencies]
aes-gcm = "0.10"
base64 = "0.22"
ignore = "0.4"
percent-encoding = "2"
time = { version = "0.3", features = ["formatting", "parsing"] }
serde = { version = "1", features = ["derive"] }
serde_json = "1"
notify = "8"
thiserror = "2"
windows-sys = { version = "*", features = ["Win32_Foundation", "Win32_System_Registry"] }

[dev-dependencies]
tempfile = "3"
