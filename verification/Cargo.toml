[package]
name = "tcpm"
version = "0.1.0"
edition = "2021"
publish = false

[dependencies]
etherparse = "0.9"
tun-tap = { version = "0.1", default-features = false }
nix = "0.23"
log = "0.4"
simplelog = "0.10"
crossbeam = "0.8"
crossbeam-channel = "0.5"
