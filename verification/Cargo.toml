[package]
name = "chunkedge_schematics"
version = "0.1.0"
edition = "2021"
publish = false

[dependencies]
chunkedge = "*"
flate2 = "1"
thiserror = "2"
