[package]
name = "linprog"
version = "0.3.1"
edition = "2021"
publish = false

[dependencies]
uuid = { version = "1", features = ["v4"] }
