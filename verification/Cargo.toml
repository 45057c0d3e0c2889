[package]
name = "rattler_constraints"
version = "0.1.0"
edition = "2021"
publish = false

[dependencies]
pubgrub = "=0.4.0"
smallvec = "=1.16.4"
