[package]
name = "dfx"
version = "0.1.0"
edition = "2021"
publish = false

[dependencies]
anyhow = "=1.0.104"
candid = "=0.7.18"
clap = { version = "=3.2.25", features = ["derive"] }
delay = "=0.3.1"
ic-agent = "=0.4.1"
ic-types = "=0.1.5"
mime_guess = "=2.0.5"
openssl = "=0.10.82"
serde = { version = "=1.0.229", features = ["derive"] }
serde_bytes = "=0.11.19"
slog = "=2.8.2"
tokio = { version = "=1.54.1", features = ["rt-multi-thread"] }
walkdir = "=2.5.0"
