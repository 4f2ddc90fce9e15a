[package]
name = "cem"
version = "0.1.0"
edition = "2021"
publish = false

[dependencies]
rocket = "*"
rocket_db_pools = { version = "*", features = ["diesel_postgres"] }
diesel = { version = "*", features = ["postgres", "chrono"] }
clap = { version = "*", features = ["derive"] }
serde = { version = "*", features = ["derive"] }
toml = "*"
chrono = "*"
edit = "*"
