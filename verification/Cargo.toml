[package]
name = "status_daemon"
version = "0.1.0"
edition = "2021"
publish = false

[dependencies]
libc = "*"
process_alive = "*"
ipipe = "*"
zmq = "*"
clap = { version = "*", features = ["derive"] }
online = "*"
