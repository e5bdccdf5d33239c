[package]
name = "pwmanager"
version = "0.1.0"
edition = "2021"
publish = false

[dependencies]
aes-gcm = "*"
argon2 = "*"
clap = { version = "*", features = ["derive"] }
rpassword = "*"
secrecy = "*"
zeroize = "*"
