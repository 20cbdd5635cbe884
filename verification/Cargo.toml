[package]
name = "sumcheck_utils"
version = "0.1.0"
edition = "2021"
publish = false

[dependencies]
p3-field = "=0.8.0"
p3-koala-bear = "=0.8.0"
