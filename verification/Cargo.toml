[package]
name = "zipmount"
version = "0.1.0"
edition = "2021"
publish = false

[dependencies]
libdeflater = "=1.26.1"
encoding_rs = "=0.8.44"
aes = "=0.8.4"
ctr = "=0.9.2"
hmac = "=0.12.1"
sha1 = "=0.10.7"
pbkdf2 = "=0.12.2"
rustc-hash = "=2.1.3"
zeroize = "=1.9.1"
anyhow = "=1.0.104"
clap = { version = "=4.6.7", features = ["derive"] }
fluent-bundle = "=0.15.3"
unic-langid = "=0.9.6"
memmap2 = "=0.9.12"
flate2 = "=1.1.10"
regex = "1"
grep-regex = "0.1"
grep-searcher = "0.1"
