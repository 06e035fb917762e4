[package]
name = "uniprops"
version = "0.1.0"
edition = "2021"
publish = false

[dependencies]
csv = "1"
proc-macro2 = "1"
quote = "1"
serde = { version = "1", features = ["derive"] }
