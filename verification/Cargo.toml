[package]
name = "wewerewondering_api"
version = "0.1.0"
edition = "2021"
publish = false

[dependencies]
ulid = "1"
rand = "0.9"
axum = "0.8"
http = "1"
serde = { version = "1", features = ["derive"] }
serde_json = "1"
tokio = { version = "1", features = ["full"] }
aws-sdk-dynamodb = "*"
aws-smithy-runtime-api = "*"
aws-smithy-types = "*"
