[package]
name = "compact_str"
version = "0.1.0"
edition = "2021"
publish = false

[dependencies]
arbitrary = { version = "1", features = ["derive"] }
proptest = "1"
static_assertions = "1"
