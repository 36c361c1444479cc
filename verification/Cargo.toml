[package]
name = "roomdag"
version = "0.1.0"
edition = "2021"
publish = false

[dependencies]
rezzy = "*"
ruma = { version = "*", features = ["events", "signatures"] }
serde_json = "*"
itertools = "*"
arrayvec = "*"
smallvec = "*"
futures = "*"
tokio = { version = "*", features = ["fs", "io-util", "rt"] }
