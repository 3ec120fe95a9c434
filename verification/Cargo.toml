[package]
name = "kv"
version = "0.1.0"
edition = "2021"
publish = false

[dependencies]
memchr = "2"
itoa = "1"
lexical-core = "*"
fxhash = "0.2"
rand = "0.8"
tokio = { version = "1", features = ["full"] }
mlua = { version = "0.9", features = ["lua54", "vendored", "async"] }
bytes = "1"
futures = "0.3"
tracing = "0.1"
tracing-subscriber = "0.3"
once_cell = "1"
