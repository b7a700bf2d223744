[package]
name = "ulid_codec"
version = "0.1.0"
edition = "2021"

[dependencies]
chrono = "=0.4.45"
ulid = "=1.2.1"
nu-plugin = "=0.115.1"
nu-protocol = "=0.115.1"
