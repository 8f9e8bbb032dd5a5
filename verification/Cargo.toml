[package]
name = "piinguin"
version = "0.1.0"
edition = "2021"
publish = false

[dependencies]
serde_json = "1"
failure = "0.1"
yew = "0.9.2"
stdweb = "0.4.20"
