[package]
name = "shorter"
version = "0.1.0"
edition = "2021"
publish = false

[dependencies]
colored = "=3.1.1"
confy = "=2.0.0"
open = "=5.4.4"
serde = { version = "=1.0.229", features = ["derive"] }
