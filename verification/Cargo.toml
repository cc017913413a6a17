[package]
name = "vault"
version = "0.1.0"
edition = "2021"
publish = false

[dependencies]
aes-gcm = "0.10"
base64 = "0.22"
clap = { version = "4", features = ["derive"] }
rand = "0.8"
rpassword = "7"
sha2 = "0.10"
