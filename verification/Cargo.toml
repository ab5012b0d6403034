[package]
name = "fwevents"
version = "0.1.0"
edition = "2021"
publish = false

[dependencies]
chrono = "=0.4.45"
csv = "=1.4.0"

[dev-dependencies]
regex = "=1.13.1"
