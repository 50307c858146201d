[package]
name = "look_up_table"
version = "0.1.0"
edition = "2021"
publish = false

[dependencies]
itertools = "0.12"
thiserror-no-std = "*"

[dev-dependencies]
num = "0.4"
