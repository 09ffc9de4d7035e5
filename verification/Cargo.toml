[package]
name = "precord-core"
version = "0.1.0"
edition = "2021"
publish = false

[dependencies]
core-foundation = "=0.9.4"
libc = "=0.2.191"
plist = "=1.10.3"
serde = { version = "=1.0.229", features = ["derive"] }
