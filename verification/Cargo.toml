[package]
name = "adb_qr"
version = "0.1.0"
edition = "2021"
publish = false

[dependencies]
clap = { version = "4", features = ["derive"] }
png = "0.17"
qrcodegen = "1.8"
rand = "0.8"
which = "6"
