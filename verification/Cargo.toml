[package]
name = "fountain-core"
version = "0.1.0"
edition = "2021"
publish = false

[dependencies]
crc32fast = "1"
getrandom = "0.2"
qrcode = { version = "0.14", default-features = false }
rqrr = { version = "0.9", default-features = false }
wasm-bindgen = "0.2"
js-sys = "0.3"
