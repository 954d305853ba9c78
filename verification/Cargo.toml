[package]
name = "asciitrie"
version = "0.1.0"
edition = "2021"
publish = false

[dependencies]
wyhash = "=0.5.0"
eyre = "=0.6.14"
displaydoc = "=0.2.7"

[dev-dependencies]
rand = "0.8"
rand_pcg = "0.3"
