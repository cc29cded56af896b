[package]
name = "jolt_core"
version = "0.1.0"
edition = "2021"
publish = false

[dependencies]
ark-bn254 = "0.5"
ark-ff = "0.5"
ark-std = "0.5"
ark-serialize = "0.5"
num-integer = "0.1"
clap = { version = "4", features = ["derive"] }
