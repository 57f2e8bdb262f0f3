[package]
name = "yozuk_skills"
version = "0.1.0"
edition = "2021"
publish = false

[dependencies]
bigdecimal = "0.3"
num-bigint = "0.4"
bech32 = "0.9"
shell-words = "1.1"
mediatype = "0.19"
chrono = "0.4"
clap = { version = "3", features = ["derive"] }
