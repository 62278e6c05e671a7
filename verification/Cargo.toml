[package]
name = "crates_proxy"
version = "0.1.0"
edition = "2021"
publish = false

[dependencies]
melange_db = "*"
serde = { version = "*", features = ["derive"] }
serde_json = "*"
toml = "*"
clap = { version = "*", features = ["derive"] }
curl = "*"
hyper = { version = "*", features = ["http1", "server"] }
hyper-util = { version = "*", features = ["tokio"] }
http-body-util = "*"
tokio = { version = "*", features = ["rt-multi-thread", "net", "time", "macros"] }
