[package]
name = "cvlayout"
version = "0.1.0"
edition = "2021"
publish = false

[dependencies]
rusttype = "=0.9.3"
owned_ttf_parser = "=0.15.2"
font-kit = "=0.14.3"
printpdf = "=0.12.8"
image = "=0.25.10"
serde = { version = "=1.0.229", features = ["derive"] }
serde_json = "=1.0.151"
serde_with = "=3.24.0"
log = "=0.4.34"
env_logger = "=0.11.11"
