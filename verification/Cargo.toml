[package]
name = "momoden_query"
version = "0.1.0"
edition = "2021"
publish = false

[dependencies]
arrayvec = "0.7"
int-enum = "0.5"
momoden-password = "*"
seed = "0.10"
