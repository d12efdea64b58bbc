[package]
name = "channel_est"
version = "0.1.0"
edition = "2021"
publish = false

[dependencies]
rustfft = "*"
num = "*"
ctrlc = "*"

[dev-dependencies]
rand = "*"
