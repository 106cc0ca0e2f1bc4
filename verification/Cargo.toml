[package]
name = "file_transfer"
version = "0.1.0"
edition = "2021"
publish = false

[dependencies]
sha2 = "0.10"
multiset = "0.0.5"
whoami = "1"
local-ip-address = "0.6"
