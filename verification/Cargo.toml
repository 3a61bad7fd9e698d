[package]
name = "compat_matrix"
version = "0.1.0"
edition = "2021"
publish = false

[dependencies]
dotenv = "0.15"
markdown-table = "*"
reqwest = "0.11"
semver = "1"
serde = { version = "1", features = ["derive"] }
serde_json = "1"
serde_yaml = "0.9"
tokio = { version = "1", features = ["macros", "rt-multi-thread"] }
version-compare = "0.1"

[dev-dependencies]
regex = "1"
