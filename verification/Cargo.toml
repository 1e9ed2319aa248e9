[package]
name = "hostlist_parser"
version = "0.1.0"
edition = "2021"
publish = false

[dependencies]
combine = "4.6"
itertools = "0.10"
