[package]
name = "coop_runtime"
version = "0.1.0"
edition = "2021"
publish = false

[dependencies]
flume = "*"
async-task = "*"
futures-lite = "*"
waker-fn = "*"
async-std = "*"
