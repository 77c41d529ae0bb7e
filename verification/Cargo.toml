[package]
name = "axon_ast_parser"
version = "0.1.0"
edition = "2021"
publish = false

[dependencies]
raystack_core = "*"
chrono = "0.4"
