[package]
name = "procmon"
version = "0.1.0"
edition = "2021"
publish = false

[dependencies]
priority-queue = "*"
chrono = "*"
clap = { version = "*", features = ["derive"] }
sysinfo = "*"
tokio = { version = "*", features = ["macros", "rt-multi-thread", "time", "signal"] }
influxdb2-derive = "*"
