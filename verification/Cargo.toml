[package]
name = "ctrl_cidr"
version = "0.1.0"
edition = "2021"
publish = false

[dependencies]
ipnet = "2"
anyhow = "1"
clap = { version = "4", features = ["derive"] }
tokio = { version = "1", features = ["macros", "rt-multi-thread", "time"] }
tokio-stream = "0.1"
log = "0.4"
env_logger = "0.11"
fastrand = "2"
aws-config = { version = "1", default-features = false }
aws-types = { version = "1", default-features = false }
aws-sdk-eks = { version = "1", default-features = false }
aws-sdk-sts = { version = "1", default-features = false }
aws-sdk-organizations = { version = "1", default-features = false }
