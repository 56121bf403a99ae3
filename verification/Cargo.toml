[package]
name = "execution_engine"
version = "0.1.0"
edition = "2021"
publish = false

[dependencies]
blake2 = "*"
num = "*"
primitive-types = "*"
