[package]
name = "divvun_runtime"
version = "0.1.0"
edition = "2021"
publish = false

[dependencies]
regex = "=1.13.1"
serde_json = "=1.0.154"
unic-langid = "=0.9.6"
ssml-parser = "=0.3.0"
fluent-syntax = "=0.12.0"
xmlem = "=0.5.0"
fluent-bundle = "*"
