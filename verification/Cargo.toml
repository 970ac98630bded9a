[package]
name = "microde"
version = "0.1.0"
edition = "2021"
publish = false

[dependencies]
futures = { version = "0.3", features = ["thread-pool"] }
event-listener = "5"
