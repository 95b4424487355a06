[package]
name = "artillery_core"
version = "0.1.0"
edition = "2021"
publish = false

[dependencies]
uuid = "*"
mio = { version = "*", default-features = false, features = ["os-poll", "net"] }
