[package]
name = "hexpeek"
version = "0.1.0"
edition = "2021"
publish = false

[dependencies]
lsp-server = "0.7"
lsp-types = "0.94"
num-bigint = "0.4"
num-traits = "0.2"
serde_json = "1"
zed_extension_api = "0.1"
