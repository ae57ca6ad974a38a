[package]
name = "rust_recovery"
version = "0.1.0"
edition = "2021"
publish = false

[dependencies]
memmap2 = "*"
sha2 = "*"
serde_json = "*"
html-escape = "*"
serde = { version = "*", features = ["derive"] }
clap = { version = "*", features = ["derive"] }
rayon = "*"
tokio = { version = "*", features = ["rt", "rt-multi-thread", "sync", "macros", "time"] }
