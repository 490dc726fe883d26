[package]
name = "llama_infer"
version = "0.1.0"
edition = "2021"
publish = false

[dependencies]
env_logger = { version = "0.11", default-features = false }
libc = "0.2"
log = "0.4"
