[package]
name = "wubi_table"
version = "0.1.0"
edition = "2021"
publish = false

[dependencies]
arrayvec = "0.7"
thiserror = "1"
