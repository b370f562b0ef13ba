[package]
name = "toklex"
version = "0.1.0"
edition = "2021"
publish = false

[dependencies]
unicode-brackets = "*"
unicode-width = "*"
unicode-xid = "*"
