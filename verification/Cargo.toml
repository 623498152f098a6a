[package]
name = "waitable_executor"
version = "0.1.0"
edition = "2021"
publish = false

[dependencies]
generational-arena = "0.2"
spin = "0.5"
futures = { version = "0.3", default-features = false, features = ["alloc"] }
