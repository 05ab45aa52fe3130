[package]
name = "ducci"
version = "0.1.0"
edition = "2021"
publish = false

[dependencies]
bigdecimal = "=0.4.11"
chrono = "=0.4.45"
num-bigint = "=0.4.8"
rand = "=0.9.5"
rayon = "=1.12.0"
text_io = "=0.1.13"
