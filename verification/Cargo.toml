[package]
name = "camel_cards"
version = "0.1.0"
edition = "2021"
publish = false

[dev-dependencies]
nom = "=7.1.3"
