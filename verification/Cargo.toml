[package]
name = "fsvfs"
version = "0.1.0"
edition = "2021"
publish = false

[dependencies]
aes = "=0.9.4"
malachite = "=0.14.0"
base64 = "=0.22.1"
clap = { version = "=4.6.7", features = ["derive"] }
eyre = "=0.6.14"
fuser = { version = "=0.18.0", default-features = false }
ctrlc = "=3.5.2"
eytzinger = "*"
