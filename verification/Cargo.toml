[package]
name = "bsim"
version = "0.1.0"
edition = "2021"
publish = false

[dependencies]
egui = "=0.30.0"
crossbeam = "=0.8.5"
