[package]
name = "url-parse-nginx"
version = "0.1.0"
edition = "2021"
publish = false

[dependencies]
percent-encoding = "2.3"
