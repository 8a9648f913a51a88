[package]
name = "qsim"
version = "0.1.0"
edition = "2021"
publish = false

[dependencies]
num-complex = "0.4"
rand = "0.8"
ndarray = "0.16"
tracing = "0.1"
tracing-subscriber = "0.3"
tracing-chrome = "0.7"
chrono = "0.4"
