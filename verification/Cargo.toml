[package]
name = "sfs"
version = "0.1.0"
edition = "2021"
publish = false

[dependencies]
aes = "0.8"
bcrypt = "0.15"
getrandom = "0.2"
zeroize = "1"
