[package]
name = "sbnf"
version = "0.1.0"
edition = "2021"
publish = false

[dependencies]
base64 = "0.22"
bumpalo = "3"
clap = { version = "4", features = ["cargo"] }
hashbrown = "*"
indexmap = "2"
