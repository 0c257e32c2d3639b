[package]
name = "docket"
version = "0.1.0"
edition = "2021"
publish = false

[dependencies]
pulldown-cmark = "*"
serde = { version = "*", features = ["derive"] }
serde_json = "*"
docopt = "*"
log = "*"
env_logger = "*"
notify = "4"
