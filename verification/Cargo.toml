[package]
name = "os_projects"
version = "0.1.0"
edition = "2021"
publish = false

[dependencies]
nix = "0.25"
libc = "0.2"
crossbeam = "0.8"
shared_memory = "0.12"
interprocess = "1"
log = "0.4"
log4rs = "1"
