[package]
name = "memscan"
version = "0.1.0"
edition = "2021"
publish = false

[dependencies]
elf = "*"
libc = "*"
clap = { version = "*", features = ["derive"] }
bytemuck = "*"
glam = { version = "*", features = ["bytemuck"] }
thiserror = "*"
