[package]
name = "apngopt"
version = "0.1.0"
edition = "2021"
publish = false

[dependencies]
crc32fast = "1"
flate2 = "1"
zopfli = "*"
png = "*"
imagequant = "4"
clap = { version = "4", features = ["derive"] }
