[package]
name = "utp_rs"
version = "0.1.0"
edition = "2021"
publish = false

[dependencies]
delay_map = "*"
tokio = { version = "1", features = ["macros", "net", "rt", "rt-multi-thread", "sync", "time"] }
tracing = "0.1"

[dev-dependencies]
quickcheck = "1"
