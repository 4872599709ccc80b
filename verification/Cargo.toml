[package]
name = "the_golden"
version = "0.1.0"
edition = "2021"
publish = false

[dependencies]
regex = "*"
dotenv = "*"
enable-ansi-support = "*"
tracing-subscriber = "*"
