[package]
name = "dual_judge"
version = "0.1.0"
edition = "2021"
publish = false

[dependencies]
anyhow = "*"
aws-config = "*"
aws-sdk-lambda = "*"
base64 = "*"
chrono = "*"
chrono-tz = "*"
console = "*"
flate2 = "*"
getopts = "*"
lambda_runtime = "*"
regex = "*"
serde = { version = "*", features = ["derive"] }
serde_json = "*"
serde_yaml = "*"
tempfile = "*"
tokio = { version = "*", features = ["full"] }
