[package]
name = "ranked_vote"
version = "0.1.0"
edition = "2021"
publish = false

[dependencies]
calamine = "*"
clap = { version = "*", features = ["derive"] }
colored = "*"
csv = "*"
lazy_static = "*"
rayon = "*"
regex = "*"
serde = { version = "*", features = ["derive"] }
serde_json = "*"
