[package]
name = "defwalk"
version = "0.1.0"
edition = "2021"
publish = false

[dependencies]
rls-analysis = "*"
rls-data = "*"
serde_json = "1"
