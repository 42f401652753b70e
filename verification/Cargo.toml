[package]
name = "synonym_finder"
version = "0.1.0"
edition = "2021"
publish = false

[dependencies]
actix = "0.13"
reqwest = { version = "0.12", default-features = false, features = ["blocking", "rustls-tls"] }
