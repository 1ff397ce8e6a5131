[package]
name = "serial_test"
version = "0.1.0"
edition = "2021"
publish = false

[dependencies]
scc = "*"
parking_lot = "*"
once_cell = "*"
fslock = "*"
futures = "*"
