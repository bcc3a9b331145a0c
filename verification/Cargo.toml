[package]
name = "takoyaki"
version = "0.1.0"
edition = "2021"
publish = false

[dependencies]
clap = { version = "3.2", features = ["derive"] }
env_logger = "0.9"
flexbuffers = "2"
log = "0.4"
rand = "0.8"
rand_distr = "0.4"
rand_mt = "4"
serde = { version = "1", features = ["derive"] }
serde_json = "1"
serde_repr = "0.1"
textwrap = "0.15"
tokio = { version = "1", features = ["full"] }
wyhash = "0.5"
