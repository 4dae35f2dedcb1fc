[package]
name = "db_migrate"
version = "0.1.0"
edition = "2021"
publish = false

[dependencies]
sqlx = { version = "*", default-features = false, features = ["runtime-tokio", "postgres"] }
tokio = { version = "*", features = ["rt-multi-thread", "net"] }
serde = { version = "*", features = ["derive"] }
serde_json = "*"
dotenv = "*"
chrono = "*"
