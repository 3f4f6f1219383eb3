[package]
name = "html5ever_stream"
version = "0.1.0"
edition = "2021"
publish = false

[dependencies]
html5ever = "0.22"
futures = "0.1"
hyper = "0.11"
