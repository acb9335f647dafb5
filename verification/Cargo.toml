[package]
name = "segment_id"
version = "0.1.0"
edition = "2021"
publish = false

[dependencies]
axum = "0.6"
dotenv = "0.15"
serde = { version = "1", features = ["derive"] }
sqlx = { version = "0.7", default-features = false, features = ["runtime-tokio", "mysql"] }
tokio = { version = "1", features = ["full"] }
toml = "0.8"
