[package]
name = "usbscope"
version = "0.1.0"
edition = "2021"
publish = false

[dependencies]
anyhow = "1"
aya = "0.13"
clap = { version = "4", features = ["derive"] }
flate2 = "1"
libc = "0.2"
object = "0.36"
serde_json = "1"
