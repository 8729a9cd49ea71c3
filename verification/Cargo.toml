[package]
name = "jsonschema"
version = "0.1.0"
edition = "2021"
publish = false

[dependencies]
chrono = { version = "0.4", default-features = false, features = ["std"] }
idna = "1"
lazy_static = "1"
num-cmp = "0.1"
regex = "1"
rug = { version = "1", default-features = false, features = ["integer", "rational"] }
serde_json = { version = "1", features = ["arbitrary_precision"] }
url = "2"
