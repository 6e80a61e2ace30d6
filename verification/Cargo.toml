[package]
name = "esp32-wroom-rp"
version = "0.1.0"
edition = "2021"
publish = false

[dependencies]
embedded-hal = { version = "0.2.7", features = ["unproven"] }
cortex-m = "0.7"

[dev-dependencies]
embedded-hal-mock = "0.8"
