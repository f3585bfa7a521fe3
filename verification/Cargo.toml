[package]
name = "large"
version = "0.1.0"
edition = "2021"

[dev-dependencies]
num-bigint = "0.4"
num-integer = "0.1"
num-rational = "0.4"
num-traits = "0.2"
rand = "0.8"
