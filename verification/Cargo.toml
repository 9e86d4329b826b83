[package]
name = "logroller"
version = "0.1.0"
edition = "2021"
publish = false

[dependencies]
chrono = "=0.4.45"
crossbeam-channel = "=0.5.17"
flate2 = "=1.1.10"
regex = "=1.13.1"
thiserror = "=2.0.21"
xz2 = { version = "=0.1.7", features = ["static"] }
