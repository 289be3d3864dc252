[package]
name = "neutrondb"
version = "0.1.0"
edition = "2021"
publish = false

[dependencies]
astro-format = "*"
astro-notation = "*"
blake3 = "*"
fides = "*"
opis = "*"
sha2 = "*"
sha3 = "*"
stellar-notation = "*"
