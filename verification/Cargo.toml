[package]
name = "stacks"
version = "0.1.0"
edition = "2021"
publish = false

[dependencies]
clap = { version = "4", features = ["derive", "env"] }
clap-verbosity-flag = "*"
flexi_logger = "*"
log = "0.4"
serde = { version = "1", features = ["derive"] }
serde_with = "*"
serde_yaml = "*"
