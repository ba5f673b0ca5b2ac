[package]
name = "rust_decimal"
version = "0.1.0"
edition = "2021"
publish = false

[dependencies]
quickcheck = "1"
proptest = "1"
hegeltest = "0.3.7"
crabcheck = "*"
