[package]
name = "memcache_response"
version = "0.1.0"
edition = "2021"
publish = false

[dependencies]
log = "0.3"
time = "0.1"
