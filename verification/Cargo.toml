[package]
name = "stablecoin"
version = "0.1.0"
edition = "2021"
publish = false

[dependencies]
num-rational = { version = "=0.4.2", default-features = false }
parity-scale-codec = { version = "=3.7.5", features = ["derive"] }
sp-runtime = "=49.0.0"

[dev-dependencies]
itertools = "=0.10.5"
quickcheck = { version = "0.9", default-features = false }
rand = "0.7"
