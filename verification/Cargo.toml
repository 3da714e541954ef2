[package]
name = "dataloader"
version = "0.1.0"
edition = "2021"
publish = false

[dependencies]
tokio = { version = "*", features = ["rt-multi-thread", "macros", "net"] }
axum = "*"
async-graphql = "*"
async-graphql-axum = "*"
