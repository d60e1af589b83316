[package]
name = "xmlo3"
version = "0.1.0"
edition = "2021"
publish = false

[dependencies]
xmlparser = "0.13"
roxmltree = "0.18"
serde = { version = "1", features = ["derive"] }
pyo3 = "0.20"
