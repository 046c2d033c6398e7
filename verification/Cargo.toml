[package]
name = "fabmanager"
version = "0.1.0"
edition = "2021"
publish = false

[dependencies]
semver = "1"
reqwest = { version = "0.12", default-features = false, features = ["json"] }
tokio = { version = "1", features = ["macros", "rt-multi-thread"] }
clap = { version = "4", features = ["derive"] }
serde = { version = "1", features = ["derive"] }
log = "0.4"
env_logger = "0.11"

[dev-dependencies]
serde_json = "1"
