[package]
name = "ratto"
version = "0.1.0"
edition = "2021"
publish = false

[dependencies]
kdl = "6"
miette = { version = "7", features = ["fancy"] }
shell-words = "1"
anyhow = "1"
clap = { version = "4", features = ["derive"] }
jiff = "0.2"
libc = "0.2"

[dev-dependencies]
tempfile = "3"
