[package]
name = "promptfuzz"
version = "0.1.0"
edition = "2021"
publish = false

[dependencies]
async-openai = "0.28"
eyre = "0.6"
futures = "0.3"
log = "0.4"
once_cell = "1"
reqwest = { version = "0.12", default-features = false, features = ["json", "rustls-tls"] }
serde = { version = "1", features = ["derive"] }
serde_json = "1"
thiserror = "1"
tokio = { version = "1", features = ["rt", "time"] }
