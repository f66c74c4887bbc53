[package]
name = "ts_splitter"
version = "0.1.0"
edition = "2021"
publish = false

[dependencies]
crc = "3"
getopts = "0.2"
