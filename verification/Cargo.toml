[package]
name = "htb"
version = "0.1.0"
edition = "2021"
publish = false

[dependencies]
gcd = "*"
serde = { version = "*", features = ["derive"] }
