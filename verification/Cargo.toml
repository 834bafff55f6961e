[package]
name = "lm_orchestrator"
version = "0.1.0"
edition = "2021"
publish = false

[dependencies]
comrak = { version = "0.39", default-features = false }
serde = { version = "1", features = ["derive"] }
