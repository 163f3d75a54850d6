[package]
name = "cowconnect"
version = "0.1.0"
edition = "2021"
publish = false

[dependencies]
anyhow = "1"
cpal = "0.14"
ringbuf = "0.3"
