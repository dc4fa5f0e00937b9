[package]
name = "org_core"
version = "0.1.0"
edition = "2021"
publish = false

[dependencies]
strsim = "*"
chrono = { version = "0.4", default-features = false, features = ["clock", "std"] }
serde = { version = "1", features = ["derive"] }
serde_json = "1"
libsql = { version = "*", default-features = false, features = ["core"] }
tokio = { version = "1", features = ["macros", "rt-multi-thread"] }
clap = { version = "4", features = ["derive"] }
anyhow = "1"
thiserror = "*"
