[package]
name = "openmemory"
version = "0.1.0"
edition = "2021"
publish = false

[dependencies]
base64 = "0.21"
candid = "0.10"
futures = "0.3"
hex = "0.4"
ic-cdk = "0.13"
ic-cdk-macros = "0.13"
ic-stable-structures = "0.6"
serde = { version = "1", features = ["derive"] }
serde_json = "1"
sha2 = "0.10"
url = "2"
urlencoding = "2"
