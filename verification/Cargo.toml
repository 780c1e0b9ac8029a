[package]
name = "disputes"
version = "0.1.0"
edition = "2021"
publish = false

[dependencies]
bitvec = "0.20"
parity-scale-codec = { version = "*", features = ["derive"] }
sp-core = "*"
sp-runtime = "*"
frame-support = "*"
frame-system = "*"
