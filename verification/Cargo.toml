[package]
name = "pr_report"
version = "0.1.0"
edition = "2021"
publish = false

[dependencies]
octocrab = "=0.41.2"
serde = { version = "=1.0.229", features = ["derive"] }
serde_json = "=1.0.151"
tokio = { version = "=1.53.2", features = ["macros", "rt-multi-thread"] }
