[package]
name = "mipsmatch"
version = "0.1.0"
edition = "2021"
publish = false

[dependencies]
clap = { version = "4", features = ["derive"] }
clap-num = "1"
elf = "0.7"
itertools = "*"
mapfile_parser = "2"
rabbitizer = "1"
regex = "1"
serde = { version = "1", features = ["derive"] }
serde_yaml = "0.9"
