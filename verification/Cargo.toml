[package]
name = "jubjub_circuit"
version = "0.1.0"
edition = "2021"
publish = false

[dependencies]
pairing_ce = "*"
ff_ce = "*"
ff-uint = "*"

[dev-dependencies]
rand = "*"
