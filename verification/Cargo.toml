[package]
name = "jqsh"
version = "0.1.0"
edition = "2021"
publish = false

[dependencies]
chan = "0.1.23"
eventual = "0.1.7"
itertools = "*"
num = "0.4.3"
