[package]
name = "expr_frontend"
version = "0.1.0"
edition = "2021"
publish = false

[dependencies]
nom = "=7.1.3"
serde = { version = "=1.0.229", features = ["derive"] }
serde_derive = "=1.0.229"

[dev-dependencies]
nom_locate = "=4.2.0"
