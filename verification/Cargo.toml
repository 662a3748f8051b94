[package]
name = "brackens_engine"
version = "0.1.0"
edition = "2021"
publish = false

[dependencies]
crossbeam = "0.8"
shipyard = "0.6"
glam = "0.24"
log = "0.4"
anyhow = "1"
downcast-rs = "1"
