[package]
name = "sourcemap_backend"
version = "0.1.0"
edition = "2021"
publish = false

[dependencies]
aes-gcm = "0.10"
aws-sdk-s3 = { version = "1", features = ["behavior-version-latest"] }
axum = "0.8"
base64 = "0.22"
dotenvy = "0.15"
hex = "0.4"
rand = "0.10"
serde = { version = "1", features = ["derive"] }
serde_json = "1"
sourcemap = "9"
sqlx = { version = "0.8", features = ["postgres", "runtime-tokio", "uuid"] }
thiserror = "2"
tokio = { version = "1", features = ["macros", "net", "rt-multi-thread"] }
tower-http = { version = "0.6", features = ["trace"] }
tracing = "0.1"
tracing-subscriber = { version = "0.3", features = ["env-filter"] }
uuid = { version = "1", features = ["serde"] }
zstd = "0.13"
