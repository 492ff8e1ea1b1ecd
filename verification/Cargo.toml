[package]
name = "jch"
version = "0.1.0"
edition = "2021"
publish = false

[dependencies]
rpds = "*"
json-event-parser = "*"
serde_json = "*"
rmp = "*"
crossbeam = "*"
rtrb = "*"
