[package]
name = "xioioi"
version = "0.1.0"
edition = "2021"
publish = false

[dependencies]
sha2 = "=0.10.9"
getrandom = "=0.3.4"
scrypt = { version = "=0.12.0", features = ["phc"] }
zip = { version = "=2.6.1", default-features = false, features = ["deflate"] }
syntect = { version = "=5.3.0", default-features = false, features = ["default-fancy"] }
markdown = "=1.0.0"
axum = "=0.8.9"
tokio = { version = "=1.54.1", features = ["full"] }
sqlx = { version = "=0.8.6", features = ["sqlite", "runtime-tokio", "macros", "migrate"] }
serde = { version = "=1.0.229", features = ["derive"] }
rust-embed = { version = "=8.13.0", features = ["mime-guess", "interpolate-folder-path"] }
