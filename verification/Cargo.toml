[package]
name = "scenesdetect"
version = "0.1.0"
edition = "2021"
publish = false

[dependencies]
mediatime = "=0.1.9"
serde = { version = "=1.0.229", features = ["derive"] }
thiserror = "=2.0.21"
bitflags = { version = "=2.13.2", features = ["serde"] }
derive_more = { version = "=2.1.1", features = ["is_variant", "display"] }
humantime-serde = "=1.1.1"
