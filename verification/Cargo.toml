[package]
name = "tagfs"
version = "0.1.0"
edition = "2021"
publish = false

[dependencies]
clap = "2.33"
fuse-sys = "*"
log = "0.4"
nix = "0.17"
opener = "0.4"
parking_lot = "0.11"
rusqlite = "0.23"
signal-hook = "0.1"
