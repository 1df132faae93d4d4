[package]
name = "mkd"
version = "0.1.0"
edition = "2021"
publish = false

[dependencies]
pulldown-cmark = { version = "0.13", default-features = false }
emojis = "*"
