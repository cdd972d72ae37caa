[package]
name = "numsplit"
version = "0.1.0"
edition = "2021"

[dependencies]
divisors_fixed = "*"
colored = "*"
