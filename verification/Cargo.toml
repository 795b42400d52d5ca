[package]
name = "dfu_flasher"
version = "0.1.0"
edition = "2021"
publish = false

[dependencies]
regex = "1"
thiserror = "1"
tempfile = "3"
log = "0.4"
env_logger = "0.10"
serde = { version = "1", features = ["derive"] }
