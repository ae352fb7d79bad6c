[package]
name = "timely"
version = "0.1.0"
edition = "2021"
publish = false

[dependencies]
sha2 = "*"
serde = { version = "*", features = ["derive"] }
serde_json = "*"
axum = "*"
axum-extra = { version = "*", features = ["cookie"] }
tokio = { version = "*", features = ["full"] }
tower-http = { version = "*", features = ["trace"] }
tracing = "*"
tracing-subscriber = "*"
dotenvy = "*"
tera = { version = "*", default-features = false }
time = "*"
reqwest = { version = "*", default-features = false, features = ["json"] }
toml = "*"
config = { version = "*", default-features = false, features = ["toml"] }
