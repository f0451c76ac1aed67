[package]
name = "msw_core"
version = "0.1.0"
edition = "2021"
publish = false

[dependencies]
serde = { version = "1", features = ["derive"] }
serde_json = "1"
thiserror = "2"
anyhow = "1"
clap = { version = "4", features = ["derive"] }
tracing = "0.1"
tracing-subscriber = { version = "0.3", features = ["env-filter"] }
notify = "8"
windows = { version = "0.61", features = ["Win32_Devices_Display", "Win32_Foundation", "Win32_UI_WindowsAndMessaging"] }
