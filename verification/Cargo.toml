[package]
name = "dagq"
version = "0.1.0"
edition = "2021"
publish = false

[dependencies]
jj-lib = { version = "=0.44.0", default-features = false }
chrono = "=0.4.45"
