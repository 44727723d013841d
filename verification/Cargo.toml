[package]
name = "nested_qs"
version = "0.1.0"
edition = "2021"
publish = false

[dependencies]
url = "*"
form_urlencoded = "*"
serde = "*"
serde_json = "*"
