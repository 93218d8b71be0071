[package]
name = "dir_tools"
version = "0.1.0"
edition = "2021"
publish = false

[dependencies]
clap = { version = "4", features = ["derive"] }
crossterm = "0.28"
eyre = "0.6"
fs2 = "0.4"
indicatif = "0.17"
rayon = "1"
regex = "1"
terminal_size = "0.4"
unicode-width = "0.2"
walkdir = "2"
winapi = { version = "0.3", features = ["fileapi", "winnt"] }
