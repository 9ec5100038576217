[package]
name = "lethe"
version = "0.1.0"
edition = "2021"
publish = false

[dependencies]
argon2 = "*"
chacha20poly1305 = "*"
rand = "0.8"
zstd = "*"
uuid = { version = "*", features = ["v4"] }
fxhash = "*"
anyhow = "*"
clap = { version = "*", features = ["derive"] }
dirs = "*"
env_logger = "*"
log = "*"
rpassword = "*"
walkdir = "*"
humansize = "*"
