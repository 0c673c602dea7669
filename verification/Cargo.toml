[package]
name = "dunes"
version = "0.1.0"
edition = "2021"
publish = false

[dependencies]
bytemuck = "1"
memmap2 = "0.9"
thiserror = "1"
