[package]
name = "bommer"
version = "0.1.0"
edition = "2021"
publish = false

[dependencies]
uuid = { version = "1", features = ["v4"] }
packageurl = "0.3"
tokio = { version = "1", features = ["full"] }
futures = "0.3"
kube = { version = "0.87", features = ["runtime"] }
k8s-openapi = { version = "0.20", features = ["v1_26"] }
actix-web = "4"
actix-cors = "0.6"
actix-ws = "0.2"
reqwest = { version = "0.11", default-features = false, features = ["rustls-tls"] }
url = "2"
serde = { version = "1", features = ["derive"] }
serde_json = "1"
anyhow = "1"
thiserror = "1"
tracing = "0.1"
tracing-subscriber = "0.3"
