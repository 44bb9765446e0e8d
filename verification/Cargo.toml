[package]
name = "mailparse"
version = "0.1.0"
edition = "2021"
publish = false

[dependencies]
charset = "*"
data-encoding = "*"
quoted_printable = "*"
