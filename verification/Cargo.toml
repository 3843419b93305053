[package]
name = "sdb"
version = "0.1.0"
edition = "2021"
publish = false

[dependencies]
sanakirja = "=1.2.16"
sanakirja-core = "=1.2.16"
