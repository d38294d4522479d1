[package]
name = "cp2"
version = "0.1.0"
edition = "2021"
publish = false

[dependencies]
clap = { version = "4", features = ["derive"] }
clap-verbosity-flag = "*"
colored = "*"
env_logger = "*"
indicatif = "*"
log = "0.4"
tokio = { version = "1", features = ["full"] }
