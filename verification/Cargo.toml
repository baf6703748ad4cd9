[package]
name = "po_mo_catalog"
version = "0.1.0"
edition = "2021"
publish = false

[dependencies]
rayon = "1"
chrono = "0.4"
serde = { version = "1", features = ["derive"] }
serde_json = "1"
dirs = "*"
