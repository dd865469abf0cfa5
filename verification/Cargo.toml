[package]
name = "cobra"
version = "0.1.0"
edition = "2021"
publish = false

[dependencies]
sexp = "1.1.4"
dynasmrt = "1.2.3"
