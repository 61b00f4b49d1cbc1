[package]
name = "boundary_trace"
version = "0.1.0"
edition = "2021"
publish = false

[dependencies]
num-complex = "*"
num-traits = "*"
once_cell = "*"
image = "*"
base64 = "*"
formulac = "*"
