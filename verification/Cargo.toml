[package]
name = "neovim_lib"
version = "0.1.0"
edition = "2021"
publish = false

[dependencies]
async-std = "1"
async-trait = "0.1"
log = "0.4"
unix_socket = "*"

[dev-dependencies]
rmpv = "1"
