[package]
name = "mismem"
version = "0.1.0"
edition = "2021"
publish = false

[dependencies]
crossterm = "0.25"
log = "0.4"
tokio = { version = "1", features = ["full"] }
tui = "0.19"
tui-input = "0.6"
tui-logger = "0.8"
windows = { version = "0.43", features = ["Win32_Foundation", "Win32_System_ProcessStatus", "Win32_System_Threading", "Win32_System_Memory", "Win32_System_Diagnostics_Debug"] }
