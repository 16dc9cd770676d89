[package]
name = "cmdbench"
version = "0.1.0"
edition = "2021"
publish = false

[dependencies]
structopt = "0.3"
threadpool = "1.8"
