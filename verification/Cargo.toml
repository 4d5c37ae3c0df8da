[package]
name = "will_done"
version = "0.1.0"
edition = "2021"
publish = false

[dependencies]
chrono = "0.4"
serde = { version = "1", features = ["derive"] }
thiserror = "*"
sqlx = { version = "0.8", default-features = false, features = ["sqlite", "runtime-tokio", "derive"] }
rusqlite = "0.32"
reqwest = { version = "*", default-features = false, features = ["json", "rustls-tls"] }
