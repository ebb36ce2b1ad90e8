[package]
name = "pycd"
version = "0.1.0"
edition = "2021"

[dependencies]
pinyin = { version = "*", features = ["heteronym"] }
home = "*"
