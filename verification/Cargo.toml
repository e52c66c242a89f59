[package]
name = "go_plugin"
version = "0.1.0"
edition = "2021"
publish = false

[dependencies]
extism-pdk = "*"
proto_pdk = "*"
