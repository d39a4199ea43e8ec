[package]
name = "lexer_search_ui"
version = "0.1.0"
edition = "2021"
publish = false

[dependencies]
base-x = "*"
zstd = "*"
