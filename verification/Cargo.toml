[package]
name = "nummi"
version = "0.1.0"
edition = "2021"
publish = false

[dependencies]
zip = { version = "*", default-features = false, features = ["deflate"] }
chrono = "*"
reqwest = { version = "*", default-features = false, features = ["blocking"] }
