[package]
name = "mdv"
version = "0.1.0"
edition = "2021"
publish = false

[dependencies]
unicode-width = "0.2"
pulldown-cmark = { version = "0.13", default-features = false }
syntect = { version = "5", default-features = false, features = ["default-fancy"] }
two-face = { version = "0.4", default-features = false, features = ["syntect-fancy"] }
crossterm = "0.28"
terminal_size = "0.4"
clap = { version = "4", features = ["derive", "env"] }
