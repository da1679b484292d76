[package]
name = "ov6"
version = "0.1.0"
edition = "2021"
publish = false

[dependencies]
arrayvec = "0.7"
bitflags = "2"
dataview = { version = "1", features = ["derive_pod"] }
riscv = "*"
strum = { version = "*", features = ["derive"] }
thiserror = { version = "2", default-features = false }
vcell = "0.1"
