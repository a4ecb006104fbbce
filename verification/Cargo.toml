[package]
name = "flow_core"
version = "0.1.0"
edition = "2021"
publish = false

[dependencies]
bumpalo = { version = "3", features = ["collections"] }
coarsetime = "0.1"
dataview = "0.1"
