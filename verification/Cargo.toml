[package]
name = "lotsa"
version = "0.1.0"
edition = "2021"
publish = false

[dependencies]
actix-web = "0.7"
