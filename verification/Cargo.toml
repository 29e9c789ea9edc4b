[package]
name = "geenie"
version = "0.1.0"
edition = "2021"
publish = false

[dependencies]
async-fs = "*"
async-process = "*"
cliclack = "*"
futures = "*"
relative-path = "*"
thiserror = "*"
