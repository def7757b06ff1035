[package]
name = "boxfs"
version = "0.1.0"
edition = "2021"
publish = false

[dependencies]
percent-encoding = "2"
ic-cdk = "0.5"
ic-cdk-macros = "0.5"
candid = "0.7"
serde = "1"

[dev-dependencies]
rand = "0.8"
