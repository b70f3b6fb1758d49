[package]
name = "nar-alike-deduper"
version = "0.1.0"
edition = "2021"
publish = false

[dependencies]
async-channel = "=2.5.0"
async-compression = { version = "=0.4.51", features = ["tokio", "xz"] }
axum = "=0.7.9"
chrono = "=0.4.45"
color-eyre = "=0.6.5"
console-subscriber = "0.2"
duct = "=0.13.7"
futures = "=0.3.34"
hex = "=0.4.3"
nix-base32 = "=0.2.0"
regex = "=1.13.1"
reqwest = { version = "=0.11.27", default-features = false, features = ["rustls-tls", "stream", "json"] }
serde = { version = "=1.0.229", features = ["derive"] }
serde_json = "=1.0.154"
sha2 = "=0.10.9"
sqlx = { version = "=0.7.4", default-features = false, features = ["runtime-tokio", "postgres", "chrono"] }
tokio = { version = "=1.54.1", features = ["full"] }
tokio-stream = "=0.1.19"
tokio-util = { version = "=0.7.20", features = ["io"] }
tower-http = { version = "=0.5.2", features = ["trace"] }
tracing = "=0.1.44"
tracing-error = "=0.2.1"
tracing-subscriber = { version = "=0.3.23", features = ["env-filter"] }
