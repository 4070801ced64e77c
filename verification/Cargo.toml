[package]
name = "big_decimal_byte_string_encoder"
version = "0.1.0"
edition = "2021"
publish = false

[dependencies]
bigdecimal = "0.4"
num-bigint = "0.4"
thiserror = "1"

[dev-dependencies]
rand = "0.8"
