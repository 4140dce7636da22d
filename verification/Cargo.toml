[package]
name = "cargo-matrix"
version = "0.1.0"
edition = "2021"
publish = false

[dependencies]
anyhow = "1"
cargo_metadata = "*"
clap = { version = "4", features = ["derive"] }
figment = { version = "0.10", features = ["json"] }
itertools = "*"
lazy_static = "1"
serde = { version = "1", features = ["derive"] }
yansi = "1"
