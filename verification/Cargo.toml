[package]
name = "carapacedb"
version = "0.1.0"
edition = "2021"
publish = false

[dependencies]
bitflags = "1"
libc = "0.2"
winapi = { version = "0.3", features = ["handleapi"] }
