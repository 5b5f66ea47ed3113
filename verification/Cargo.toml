[package]
name = "protocol"
version = "0.1.0"
edition = "2021"
publish = false

[dependencies]
log = "=0.4.34"
poem = "3"
poem-openapi = { version = "5", features = ["swagger-ui"] }
prost = "=0.12.6"
tokio = { version = "=1.54.1", features = ["rt-multi-thread", "macros"] }
yew = { version = "=0.21.0", features = ["csr"] }
