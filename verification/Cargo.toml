[package]
name = "invoice_rust"
version = "0.1.0"
edition = "2021"
publish = false

[dependencies]
pdf-extract = "*"
walkdir = "*"
rust_xlsxwriter = "*"
