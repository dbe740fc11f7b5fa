[package]
name = "stream_join"
version = "0.1.0"
edition = "2021"
publish = false

[dependencies]
anyhow = "1"
async-trait = "0.1"
futures = "0.3"
itertools = "0.10"
log = "0.4"
smallvec = "1"
tracing = "0.1"
