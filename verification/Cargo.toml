[package]
name = "executor_core"
version = "0.1.0"
edition = "2021"
publish = false

[dependencies]
hashbrown = "0.9"
futures = "0.3"
primitive-types = "*"
