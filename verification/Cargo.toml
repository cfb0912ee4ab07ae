[package]
name = "kairoi"
version = "0.1.0"
edition = "2021"
publish = false

[dependencies]
chrono = "0.4"
crossbeam-channel = "0.5"
lazy_static = "1"
parking_lot = "0.12"
tokio = { version = "1", features = ["rt", "rt-multi-thread", "time", "macros"] }
