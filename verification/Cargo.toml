[package]
name = "vorbis_setup"
version = "0.1.0"
edition = "2021"
publish = false

[dependencies]
bitstream-io = "*"
crc-any = "*"
deku = "*"
thiserror = "*"
