[package]
name = "lithium"
version = "0.1.0"
edition = "2021"
publish = false

[dependencies]
jsonrpc-core = "10"
languageserver-types = "*"
serde = "1"
serde_json = "1"
structopt = "0.2"
url = "1"
