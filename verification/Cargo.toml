[package]
name = "jira_etl"
version = "0.1.0"
edition = "2021"
publish = false

[dependencies]
memchr = "2"
tokio = { version = "1", features = ["rt", "macros", "sync", "time", "fs", "process", "io-util"] }
async-trait = "0.1"
serde = { version = "1", features = ["derive"] }
serde_json = "1"
reqwest = { version = "0.12", default-features = false, features = ["json"] }
askama = "0.12"
nix = { version = "0.29", features = ["sched", "feature", "process"] }
aws-config = "1"
aws-sdk-s3 = "1"
