[package]
name = "http"
version = "0.1.0"
edition = "2021"
publish = false

[dependencies]
epoll = "4"
rustls = "0.21"
regex = "1"
once_cell = "1"
tightness = "*"
