[package]
name = "superpoint_rs"
version = "0.1.0"
edition = "2021"
publish = false

[dependencies]
clap = "4"
env_logger = "*"
image = { version = "*", default-features = false, features = ["png", "jpeg"] }
imageproc = { version = "*", default-features = false }
log = "0.4"
rayon = "1"
serde = { version = "1", features = ["derive"] }
tch = "*"
thiserror = "*"
toml = "*"
