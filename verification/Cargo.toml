[package]
name = "xenotile"
version = "0.1.0"
edition = "2021"
publish = false

[dependencies]
dds = "*"
ddsfile = "*"
binrw = "*"
modular-bitfield = "*"
