[package]
name = "slide_shrink"
version = "0.1.0"
edition = "2021"
publish = false

[dependencies]
lopdf = "*"
pdf-extract = "*"
console_error_panic_hook = "*"
