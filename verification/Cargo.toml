[package]
name = "lifeguard"
version = "0.1.0"
edition = "2021"
publish = false

[dependencies]
anyhow = "1"
clap = { version = "4", features = ["derive"] }
dashmap = "6"
rayon = "1"
tracing = "0.1"
