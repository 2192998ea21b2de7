[package]
name = "html_linter"
version = "0.1.0"
edition = "2021"
publish = false

[dependencies]
string-interner = "=0.20.0"
parking_lot = "=0.12.5"
html5ever = "=0.39.0"
markup5ever_rcdom = "=0.39.0"
regex = "=1.13.1"
serde = { version = "=1.0.229", features = ["derive"] }
serde_json = "=1.0.151"
thiserror = "=2.0.21"
