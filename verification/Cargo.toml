[package]
name = "kuiperdb"
version = "0.1.0"
edition = "2021"
publish = false

[dependencies]
bson = "*"
serde = "*"
serde_derive = "*"
serde_json = "*"
actix-web = { version = "*", default-features = false, features = ["macros"] }
