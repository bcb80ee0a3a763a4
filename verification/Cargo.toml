[package]
name = "oysters"
version = "0.1.0"
edition = "2021"
publish = false

[dependencies]
chrono = { version = "0.4", default-features = false, features = ["std", "now"] }
lz4_flex = { version = "0.11" }
axum = { version = "0.8" }
tokio = { version = "1", features = ["macros", "rt-multi-thread", "net", "sync"] }
tower-http = { version = "0.6", features = ["trace"] }
tracing = { version = "0.1" }
tracing-subscriber = { version = "0.3" }
serde = { version = "1", features = ["derive"] }
toml = { version = "0.8" }
pathbufd = { version = "*" }
rusqlite = { version = "0.32" }
clap = { version = "4" }
reqwest = { version = "0.12", default-features = false, features = ["json"] }
