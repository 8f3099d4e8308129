[package]
name = "json-pop"
version = "0.1.0"
edition = "2021"
publish = false

[dependencies]
codespan-reporting = "0.9"
lalrpop-util = "0.19"
lexical = "6"
