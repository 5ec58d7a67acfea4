[package]
name = "shape_query"
version = "0.1.0"
edition = "2021"
publish = false

[dependencies]
mongodb = "2"
serde = { version = "1", features = ["derive"] }
futures = "0.3"
tokio = { version = "1", features = ["macros", "rt-multi-thread"] }
