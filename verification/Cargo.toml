[package]
name = "kobara-ob"
version = "0.1.0"
edition = "2021"
publish = false

[dependencies]
chrono = { version = "0.4", default-features = false, features = ["clock", "std"] }
prost = "0.13"
prost-types = "0.13"
rust_decimal = { version = "1", default-features = false, features = ["std"] }
tokio = { version = "1", features = ["macros", "rt-multi-thread"] }
tonic = "0.12"
