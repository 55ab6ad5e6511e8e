[package]
name = "shinobu"
version = "0.1.0"
edition = "2021"
publish = false

[dependencies]
unicode-width = "0.1"
winapi = "0.2"
kernel32-sys = "0.2"
user32-sys = "0.2"
gdi32-sys = "0.2"
getopts = "0.2"
