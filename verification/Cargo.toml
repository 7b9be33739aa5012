[package]
name = "blog"
version = "0.1.0"
edition = "2021"
publish = false

[dependencies]
chrono = "0.4"
comrak = { version = "0.45", default-features = false, features = ["syntect"] }
urlencoding = "2"
rand = "0.8"
axum = "0.8"
tokio = { version = "1", features = ["rt-multi-thread", "macros", "net", "fs"] }
minijinja = "2"
tower = "0.5"
tower-http = { version = "0.6", features = ["fs", "set-header"] }
serde = { version = "1", features = ["derive"] }
serde_json = "1"
anyhow = "1"
once_cell = "1"
typst = "0.14"
typst-kit = { version = "0.14", default-features = false, features = ["fonts"] }
typst-pdf = "0.14"
