[package]
name = "type_analysis"
version = "0.1.0"
edition = "2021"

[dependencies]
codespan-reporting = "0.11"
either = "1"
