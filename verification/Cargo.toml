[package]
name = "fieldcrypt"
version = "0.1.0"
edition = "2021"
publish = false

[dependencies]
rsa = "0.5"
rand = "0.8"
base64 = "0.13"
crypto-hash = "0.3"
actix-web = "4"

[dev-dependencies]
serde_json = "1"
