[package]
name = "mdbook_drawio"
version = "0.1.0"
edition = "2021"
publish = false

[dependencies]
clap = "3"
env_logger = "0.10"
log = "0.4"
mdbook = { version = "0.4", default-features = false }
serde_json = "1"
tempfile = "3"
