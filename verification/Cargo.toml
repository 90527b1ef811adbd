[package]
name = "dfm"
version = "0.1.0"
edition = "2021"
publish = false

[dependencies]
argon2 = "0.5"
chacha20poly1305 = "0.10"
rand = "0.9"
regex = "1"
sha2 = "0.10"
clap = { version = "4", features = ["derive"] }
colored = "*"
envmnt = "*"
filetime_creation = "*"
log = "0.4"
microxdg = "*"
rpassword = "*"
serde = { version = "1", features = ["derive"] }
stderrlog = "*"
symlink = "*"
thiserror = "*"
toml = "*"
walkdir = "2"
