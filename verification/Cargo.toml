[package]
name = "glossary"
version = "0.2.0"
edition = "2021"
publish = false

[dependencies]
csv = "1"
clap = "4"
