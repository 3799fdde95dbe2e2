[package]
name = "chat_server"
version = "0.1.0"
edition = "2021"
publish = false

[dependencies]
local-ip-address = "=0.6.13"
