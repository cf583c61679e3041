[package]
name = "symbolic_compute"
version = "0.1.0"
edition = "2021"
publish = false

[dependencies]
heapless = "0.8"
embedded-alloc = "0.6"
