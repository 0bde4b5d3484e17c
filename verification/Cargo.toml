[package]
name = "phrase_compiler"
version = "0.1.0"
edition = "2021"
publish = false

[dependencies]
regex = "1"
handlebars = "4"
json = "0.12"
