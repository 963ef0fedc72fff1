[package]
name = "json_lexer"
version = "0.1.0"
edition = "2021"

[dependencies]
fallible-iterator = "0.3"
