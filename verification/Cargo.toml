[package]
name = "fire_detection"
version = "0.1.0"
edition = "2021"
publish = false

[dependencies]
serde = { version = "1", features = ["derive"] }
serde_json = "1"
log = "0.4"
embedded-hal = { version = "=0.2.7", features = ["unproven"] }
embedded-mqtt = "=0.1.0"
