[package]
name = "presto-pasta"
version = "0.1.0"
edition = "2021"
publish = false

[dependencies]
foldhash = "0.2"
io-uring = "0.7"
libc = "0.2"
nix = { version = "0.30", features = ["fs", "ioctl", "net", "poll", "socket", "uio"] }
seccompiler = "0.5"
