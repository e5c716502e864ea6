[package]
name = "grop"
version = "0.1.0"
edition = "2021"
publish = false

[dependencies]
bytesize = "*"
clap = { version = "*", features = ["derive"] }
clap-verbosity-flag = "*"
directories = "*"
grep = "*"
humansize = "*"
memmap2 = "*"
regex-syntax = "*"
thiserror = "*"
tracing = "*"
tracing-subscriber = "*"
