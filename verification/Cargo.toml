[package]
name = "social_graph"
version = "0.1.0"
edition = "2021"
publish = false

[dependencies]
parity-scale-codec = { version = "=3.7.5", default-features = false, features = ["std"] }
min-max-heap = "=1.3.0"
hex = "=0.4.3"
rand = "=0.8.8"
log = "=0.4.35"
frame-support = { version = "=49.0.1", default-features = false }
