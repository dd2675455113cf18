[package]
name = "spayd"
version = "0.1.0"
edition = "2021"
publish = false

[dependencies]
chrono = "*"
crc32fast = "*"
iban_validate = "*"
iso_currency = "*"
rust_decimal = "*"
