[package]
name = "nbt_json"
version = "0.1.0"
edition = "2021"
publish = false

[dependencies]
cesu8 = "1"
flate2 = "1"
serde_json = "1"
clap = { version = "4", features = ["derive"] }
