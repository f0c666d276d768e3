[package]
name = "nova_snark_example"
version = "0.1.0"
edition = "2021"
publish = false

[dependencies]
bellperson = { version = "=0.24.1", default-features = false }
bincode = "=1.3.3"
ff = "=0.12.1"
fil_pasta_curves = "=0.5.2"
flate2 = "=1.1.10"
generic-array = "=0.14.9"
neptune = { version = "=8.1.1", default-features = false }
nova-snark = "=0.19.1"
