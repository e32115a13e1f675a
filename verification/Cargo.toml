[package]
name = "miniblog"
version = "0.1.0"
edition = "2021"
publish = false

[dependencies]
markdown = "*"
uuid = { version = "*", features = ["v4"] }
chrono = "*"
axum = "*"
tokio = { version = "*", features = ["rt-multi-thread", "macros", "net"] }
handlebars = "*"
serde = { version = "*", features = ["derive"] }
serde_json = "*"
serde_urlencoded = "*"
tower-http = { version = "*", features = ["fs", "cors"] }
