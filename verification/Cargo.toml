[package]
name = "access_point_api"
version = "0.1.0"
edition = "2021"
publish = false

[dependencies]
pwhash = "1"
web-push = "*"
futures = "*"
base64 = "*"
