[package]
name = "crucible"
version = "0.1.0"
edition = "2021"
publish = false

[dependencies]
amq-protocol = { version = "10", default-features = false }
ariadne = "=0.6.0"
bollard = "=0.21.1"
futures-util = "0.3"
postcard = { version = "=1.1.3", features = ["use-std"] }
reqwest = { version = "=0.12.28", default-features = false, features = ["json"] }
serde = { version = "1", features = ["derive"] }
serde_json = "1"
sqlx = { version = "=0.8.6", default-features = false, features = ["runtime-tokio", "mysql"] }
thiserror = "2"
tokio = { version = "1", features = ["full"] }
tracing = "0.1"
