[package]
name = "luogu_paintboard"
version = "0.1.0"
edition = "2021"
publish = false

[dependencies]
anyhow = "*"
env_logger = "*"
image = "*"
indicatif = "*"
log = "*"
parking_lot = "*"
reqwest = { version = "*", default-features = false, features = ["form"] }
serde = { version = "*", features = ["derive"] }
tokio = { version = "*", features = ["macros", "rt-multi-thread", "time"] }
toml = "*"
