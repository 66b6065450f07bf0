[package]
name = "steg"
version = "0.1.0"
edition = "2021"
publish = false

[dependencies]
aes-gcm = "0.10"
pbkdf2 = "0.12"
sha2 = "0.10"
rand = "0.8"
flate2 = "1"
hound = "3"
image = { version = "0.25", default-features = false, features = ["png", "jpeg"] }
ndarray = "0.16"
rustdct = "0.7"
clap = { version = "4", features = ["derive"] }
thiserror = "1"
