[package]
name = "protoc-gen-pack"
version = "0.1.0"
edition = "2021"
publish = false

[dependencies]
anyhow = "1"
clap = { version = "4", features = ["derive"] }
heck = "*"
log = "0.4"
log4rs = "1"
prost = "*"
prost-types = "*"
