[package]
name = "graphiti"
version = "0.1.0"
edition = "2021"
publish = false

[dependencies]
lazy_static = "1"
legion = { version = "0.4", default-features = false, features = ["serialize"] }
petgraph = { version = "*", features = ["serde-1"] }
serde = { version = "1", features = ["derive"] }
serde_json = "1"
snafu = "*"
