[package]
name = "hid_recorder"
version = "0.1.0"
edition = "2021"
publish = false

[dependencies]
anyhow = "*"
chrono = "*"
clap = { version = "*", features = ["derive"] }
glob = "*"
hex = "*"
hidreport = "*"
human-sort = "*"
hut = "*"
libbpf-rs = "*"
libc = "*"
nix = { version = "*", features = ["poll", "fs"] }
owo-colors = "*"
uhid-virt = "*"
yaml-rust2 = "*"
