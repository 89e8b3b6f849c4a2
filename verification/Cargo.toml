[package]
name = "blockdoc"
version = "0.1.0"
edition = "2021"
publish = false

[dependencies]
yrs = "*"
serde_json = "*"
