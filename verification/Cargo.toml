[package]
name = "kubenv"
version = "0.1.0"
edition = "2021"
publish = false

[dependencies]
hashbrown = "*"
home = "*"
sha256 = { version = "*", default-features = false }
clap = { version = "*", features = ["derive"] }
