[package]
name = "vstorage"
version = "0.1.0"
edition = "2021"
publish = false

[dependencies]
aes-gcm = "*"
argon2 = "*"
rand = "*"
reed-solomon = "*"
sha2 = "*"
image = { version = "*", default-features = false, features = ["png"] }
tempfile = "*"
