[package]
name = "fluent_typegen"
version = "0.1.0"
edition = "2021"
publish = false

[dependencies]
clap = "*"
fluent-syntax = "*"
