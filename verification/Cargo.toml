[package]
name = "content_tree"
version = "0.1.0"
edition = "2021"
publish = false

[dependencies]
fs_extra = "1"
once_cell = "1"
tokio = { version = "1", features = ["rt-multi-thread"] }

[dev-dependencies]
serde_json = "1"
