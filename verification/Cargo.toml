[package]
name = "candy_typed"
version = "0.1.0"
edition = "2021"
publish = false

[dependencies]

[dev-dependencies]
databuf = "*"
bytemuck = "*"
