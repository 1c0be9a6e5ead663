[package]
name = "respectful_http"
version = "0.1.0"
edition = "2021"
publish = false

[dependencies]
async-trait = "0.1"
reqwest = "0.12"
thiserror = "2"
tokio = { version = "1", features = ["macros", "rt", "time"] }
