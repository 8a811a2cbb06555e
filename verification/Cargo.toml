[package]
name = "dirsync"
version = "0.1.0"
edition = "2021"
publish = false

[dependencies]
flate2 = "1"
tokio = { version = "1", features = ["net", "io-util", "fs", "sync", "rt-multi-thread", "time"] }
notify = "5"
notify-debouncer-mini = "0.2"
futures = "0.3"
clap = { version = "4", features = ["derive"] }

[dev-dependencies]
bincode = "1.3"
