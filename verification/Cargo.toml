[package]
name = "sofkit"
version = "0.1.0"
edition = "2021"
publish = false

[dependencies]
gtk4 = { version = "0.9", features = ["v4_12"] }
tokio = { version = "1", features = ["rt-multi-thread", "macros", "sync", "time"] }
