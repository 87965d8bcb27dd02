[package]
name = "bob"
version = "0.1.0"
edition = "2021"
publish = false

[dependencies]
http-types = { version = "2", default-features = false }

[dev-dependencies]
fancy-regex = "*"
