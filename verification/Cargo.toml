[package]
name = "rust_governor"
version = "0.2.0"
edition = "2021"
publish = false

[dependencies]
anyhow = "=1.0.104"
clap = { version = "=4.6.7", features = ["derive"] }
sysinfo = "=0.37.2"
windows = { version = "=0.59.0", features = ["Win32_Foundation", "Win32_System_Power", "Win32_System_Registry", "Win32_System_Console", "Win32_Security", "Win32_System_Threading"] }
