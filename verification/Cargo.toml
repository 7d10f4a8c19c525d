[package]
name = "tmpo"
version = "0.1.0"
edition = "2021"
publish = false

[dependencies]
clap = "2.33"
custom_error = "1"
log = "0.4"
serde = { version = "1", features = ["derive"] }
