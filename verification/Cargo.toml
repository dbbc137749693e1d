[package]
name = "chronos"
version = "0.1.0"
edition = "2021"
publish = false

[dependencies]
bit-vec = "0.6"
seahash = "4"
rand = "0.8"
uuid = { version = "1", features = ["v4", "serde"] }
ordered-float = "4"
nom = "7"
clap = { version = "4", features = ["derive"] }
tokio = { version = "1", features = ["full"] }
warp = { version = "0.3", default-features = false }
reqwest = { version = "0.11", default-features = false, features = ["json"] }
openraft = { version = "0.9", features = ["serde"] }
serde = { version = "1", features = ["derive"] }
tracing-subscriber = "0.3"
