[package]
name = "spellchecker"
version = "0.1.0"
edition = "2021"
publish = false

[dependencies]
rayon = "1"
serde = { version = "1", features = ["derive"] }
serde_json = "1"
log = "0.4"
env_logger = "0.11"
form_urlencoded = "1"
tera = "1"
tide = "0.16"
async-std = { version = "1", features = ["attributes"] }
