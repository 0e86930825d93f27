[package]
name = "fiasco_lsp_proxy"
version = "0.1.0"
edition = "2021"
publish = false

[dependencies]
regex = "1"
lsp-types = "0.94"
lsp-server = "0.7"
serde = { version = "1", features = ["derive"] }
serde_json = "1"
clap = { version = "4", features = ["derive"] }
color-eyre = "0.6"
crossbeam-channel = "0.5"
env_logger = "0.10"
log = "0.4"
tempfile = "3"
tungstenite = "*"
pest = "2"
