[package]
name = "shredder"
version = "0.1.0"
edition = "2021"
publish = false

[dependencies]
crossbeam = "=0.8.5"
parking_lot = "=0.12.5"
once_cell = "=1.21.4"
log = "=0.4.34"

[dev-dependencies]
rand = "0.8"
