[package]
name = "excel_serial"
version = "0.1.0"
edition = "2021"
publish = false

[dependencies]
jiff = "*"
