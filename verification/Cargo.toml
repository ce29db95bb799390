[package]
name = "dbcop"
version = "0.1.0"
edition = "2021"
publish = false

[dependencies]
hashbrown = "*"
rustsat = "*"
rustsat-batsat = "*"
serde = { version = "1", features = ["derive"] }
serde_json = "1"
clap = { version = "4", features = ["derive"] }
rand = "*"
rayon = "*"
chrono = { version = "*", features = ["serde"] }
