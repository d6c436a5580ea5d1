[package]
name = "key_matrix"
version = "0.1.0"
edition = "2021"
publish = false

[dependencies]
cortex-m = "=0.7.7"
embedded-hal = { version = "=0.2.7", features = ["unproven"] }
