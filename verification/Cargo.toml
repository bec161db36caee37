[package]
name = "rlifesrc"
version = "0.1.0"
edition = "2021"
publish = false

[dependencies]
ca-rules = "*"
stopwatch = "*"
thiserror = "*"
