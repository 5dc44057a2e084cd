[package]
name = "rnix"
version = "0.1.0"
edition = "2021"
publish = false

[dependencies]
base32 = "*"
base64 = "*"
binascii = "*"
codespan = "*"
codespan-reporting = "*"
im = "*"
rusqlite = { version = "*", features = ["bundled"] }
rust-crypto = "*"
