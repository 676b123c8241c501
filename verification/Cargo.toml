[package]
name = "generics_report"
version = "0.1.0"
edition = "2021"
publish = false

[dependencies]
quote = "1"
syn = { version = "2", features = ["full"] }
