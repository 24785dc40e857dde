[package]
name = "eba_asm"
version = "0.1.0"
edition = "2021"

[dependencies]
hex = "0.4"
