[package]
name = "pg_turbovec"
version = "1.3.0"
edition = "2021"
publish = false

[dependencies]
turbovec = "*"
pgrx = { version = "0.17", default-features = false, features = ["pg16"] }
rand = "0.8"
serde = { version = "1", features = ["derive"] }
once_cell = "1"
parking_lot = "0.12"
