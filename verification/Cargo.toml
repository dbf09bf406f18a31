[package]
name = "acore"
version = "0.1.0"
edition = "2021"
publish = false

[dependencies]
lazy_static = "=1.5.1"
riscv = "=0.10.1"
spin = "=0.7.2"
