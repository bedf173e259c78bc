[package]
name = "mac_egg"
version = "0.1.0"
edition = "2021"
publish = false

[dependencies]
regex = "=1.13.1"
petgraph = "=0.8.3"
aiger = "=0.2.0"
sha2 = "=0.10.9"
