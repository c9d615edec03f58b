[package]
name = "enumcombinatorics"
version = "0.1.0"
edition = "2021"

[dependencies]
streaming-iterator = "*"
