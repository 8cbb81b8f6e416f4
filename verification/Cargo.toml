[package]
name = "tfidf_search"
version = "0.1.0"
edition = "2021"
publish = false

[dependencies]
html_parser = "*"
rust-stemmers = "*"
serde = "1"
serde_derive = "1"
serde_json = "1"
tiny_http = "*"
