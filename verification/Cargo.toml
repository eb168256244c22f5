[package]
name = "drone_riscv"
version = "0.14.0"
edition = "2021"
publish = false

[dependencies]
Inflector = "=0.11.4"
proc-macro2 = "=1.0.107"
quote = "=1.0.47"
syn = { version = "=1.0.109", features = ["full", "extra-traits"] }
unicode-ident = "=1.0.27"
drone-core = "=0.14.3"
drone-macros-core = "=0.14.3"
