[package]
name = "tts_podcast"
version = "0.1.0"
edition = "2021"
publish = false

[dependencies]
anyhow = "1"
aws-config = { version = "1", default-features = false, features = ["behavior-version-latest", "rt-tokio"] }
aws-credential-types = "1"
aws-sdk-s3 = { version = "1", default-features = false, features = ["rt-tokio"] }
axum = { version = "0.8", features = ["multipart"] }
base64 = "0.22"
bytes = "1"
clap = { version = "4", features = ["derive"] }
ego-tree = "*"
futures = "0.3"
hex = "0.4"
id3 = "1"
mp3-duration = "0.1"
nanoid = "0.4"
readability = { version = "0.3", default-features = false }
reqwest = { version = "0.12", default-features = false, features = ["json"] }
scraper = "*"
serde = { version = "1", features = ["derive"] }
serde_json = "1"
sha2 = "0.10"
sqlx = { version = "0.8", default-features = false, features = ["sqlite", "runtime-tokio", "macros"] }
time = { version = "0.3", features = ["formatting", "parsing", "macros"] }
tokio = { version = "1", features = ["full"] }
tower-http = { version = "0.6", features = ["cors", "fs", "trace"] }
tracing = "0.1"
tracing-subscriber = { version = "0.3", features = ["env-filter"] }
url = "2"
uuid = { version = "1", features = ["v4"] }
