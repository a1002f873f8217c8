[package]
name = "vsg_rs"
version = "0.1.0"
edition = "2021"
publish = false

[dependencies]
regex = "1"
similar = "*"
vhdl_syntax = "*"
vhdl_lang = "*"
serde = { version = "1", features = ["derive"] }
serde_json = "1"
yaml_serde = "*"
