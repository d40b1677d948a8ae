[package]
name = "sparkey"
version = "0.1.0"
edition = "2021"
publish = false

[dependencies]
byteorder = "=1.5.0"
snap = "=0.2.5"
memmap = "=0.5.2"
failure = "=0.1.8"
hex = "=0.3.2"
base64 = "=0.10.1"
structopt = "=0.2.18"
pretty_env_logger = "=0.3.1"
log = "=0.4.34"
