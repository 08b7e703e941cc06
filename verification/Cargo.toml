[package]
name = "leapstore"
version = "0.1.0"
edition = "2021"
publish = false

[dependencies]
oxiri = "*"
oxilangtag = "*"
rio_api = "*"
rio_turtle = "*"
