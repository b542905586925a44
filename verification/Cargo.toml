[package]
name = "boltzr"
version = "0.1.0"
edition = "2021"
publish = false

[dependencies]
rapidfuzz = "*"
tokio = { version = "*", features = ["rt", "sync", "time"] }
async-trait = "*"
num_cpus = "*"
anyhow = "*"
tracing = "*"
serde = { version = "*", features = ["derive"] }
