[package]
name = "fractran"
version = "0.1.0"
edition = "2021"
publish = false

[dependencies]
num = "*"
slow_primes = "*"
