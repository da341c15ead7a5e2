[package]
name = "pdfrip"
version = "0.1.0"
edition = "2021"
publish = false

[dependencies]
anyhow = "1"
clap = { version = "4", features = ["derive"] }
colored = "2"
crossbeam = "0.8"
log = "0.4"
native-windows-gui = "1"
pdf = "0.8"
pretty_env_logger = "0.5"
