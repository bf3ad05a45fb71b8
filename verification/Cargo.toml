[package]
name = "insert"
version = "0.1.0"
edition = "2021"
publish = false

[dependencies]
smallvec = "2.0.0-alpha.10"
ariadne = "0.5"
clap = { version = "4", features = ["derive"] }
