[package]
name = "pulsar_network"
version = "0.1.0"
edition = "2021"
publish = false

[dependencies]
astro-format = "=0.8.0"
fides = "=2.3.0"
opis = "=3.1.0"
rand = "0.8"
