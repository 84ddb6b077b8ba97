[package]
name = "calico"
version = "0.1.0"
edition = "2021"
publish = false

[dependencies]
sha1 = "0.10"
sha2 = "0.10"
sha3 = "0.10"
hex = "0.4"
base64 = "0.22"
data-encoding = "2"
serde = { version = "1", features = ["derive"] }
serde_json = "1"
async-trait = "0.1"
futures = "0.3"
tokio = { version = "1", features = ["rt", "macros", "sync", "time"] }
tracing = "0.1"
kube = { version = "*", default-features = false, features = ["client", "runtime"] }
k8s-openapi = { version = "*", features = ["latest"] }
rtnetlink = "*"
