[package]
name = "rs_copier"
version = "0.1.0"
edition = "2021"
publish = false

[dependencies]
anyhow = "*"
chrono = "*"
clap = { version = "*", features = ["derive"] }
fern = "*"
log = "*"
tokio = { version = "*", features = ["fs", "macros", "rt-multi-thread"] }
