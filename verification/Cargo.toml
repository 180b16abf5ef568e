[package]
name = "csprojtool"
version = "0.1.0"
edition = "2021"
publish = false

[dependencies]
clap = "2"
crossbeam-channel = "0.5"
glob = "0.3"
globset = "0.4"
ignore = "0.4"
lazy_static = "1"
log = "0.4"
pretty_env_logger = "0.4"
regex = "1"
roxmltree = "*"
serde = { version = "1", features = ["derive"] }
serde_json = "1"
siphasher = "*"
tempfile = "3"
uuid = "*"
xmltree = "0.10"
