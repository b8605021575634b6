[package]
name = "memo_recurrence"
version = "0.1.0"
edition = "2021"
publish = false

[dependencies]
async-recursion = "*"
futures = "*"
