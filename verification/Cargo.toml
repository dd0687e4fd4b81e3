[package]
name = "fast_mail_parser"
version = "0.1.0"
edition = "2021"
publish = false

[dependencies]
mailparse = "=0.16.1"
charset = "0.1"
data-encoding = "2"
base64-simd = "0.8"
pyo3 = { version = "0.27", features = ["abi3-py311"] }

[dev-dependencies]
quoted_printable = "=0.5.1"
