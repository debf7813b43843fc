[package]
name = "faer_core"
version = "0.1.0"
edition = "2021"
publish = false

[dependencies]
rayon = "1"
dyn-stack = "0.9"
coe-rs = "0.1"
aligned-vec = "0.5"
num-complex = "0.4"
bytemuck = "1"
