[package]
name = "ikat_core"
version = "0.1.0"
edition = "2021"
publish = false

[dependencies]
slotmap = "1"
taffy = "*"
bitflags = "2"
serde = { version = "1", features = ["derive"] }
