[package]
name = "calculi"
version = "0.1.0"
edition = "2021"
publish = false

[dependencies]
chrono = "0.4"
postgres = { version = "0.19", features = ["with-chrono-0_4"] }
