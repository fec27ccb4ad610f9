[package]
name = "bazel_jdt"
version = "0.1.0"
edition = "2021"
publish = false

[dependencies]
petgraph = "*"
indexmap = "*"
sha2 = "*"
serde = { version = "1", features = ["derive"] }
serde_json = "1"
redb = "*"
starlark_syntax = "*"
jni = "0.21"
tokio = { version = "1", features = ["rt-multi-thread", "sync", "fs"] }
log = "0.4"
env_logger = "*"
thiserror = "*"
