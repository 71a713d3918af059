[package]
name = "backpack"
version = "1.0.0"
edition = "2021"
publish = false

[dependencies]
elsa = "1"
parking_lot = "0.12"
rayon = "1"
lazy_static = "1"
log = "0.4"
thiserror = "1"
