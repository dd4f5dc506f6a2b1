[package]
name = "couaincre"
version = "0.1.0"
edition = "2021"
publish = false

[dependencies]
clap = { version = "*", features = ["derive"] }
clap-verbosity-flag = "*"
env_logger = "*"
log = "*"
malachite = "*"
rustsat = "*"
rustsat-tools = "*"
