[package]
name = "ratelimit_service"
version = "0.1.0"
edition = "2021"
publish = false

[dependencies]
ratelimit_meter = "=5.0.0"
log = "=0.4.34"
env_logger = "=0.11.11"
tokio = { version = "=1.54.1", features = ["macros", "rt-multi-thread"] }
tonic = "=0.14.6"
tonic-prost = "0.14"
prost = "0.14"
