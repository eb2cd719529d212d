[package]
name = "nomad_core"
version = "0.1.0"
edition = "2021"
publish = false

[dependencies]
bytes = "*"
clap = { version = "*", features = ["derive"] }
hex = "=0.4.3"
rhai = { version = "*", features = ["sync"] }
rmpv = "=1.3.1"
rns-crypto = "=0.2.1"
tokio = { version = "*", features = ["full"] }
tracing = "*"
tracing-subscriber = "*"
