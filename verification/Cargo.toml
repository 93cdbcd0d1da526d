[package]
name = "drain_flow"
version = "0.1.0"
edition = "2021"
publish = false

[dependencies]
regex = "=1.13.1"
string-interner = "=0.20.0"
chrono = "=0.4.45"
rand = "*"
