[package]
name = "hnefatafl"
version = "0.1.0"
edition = "2021"
publish = false

[dependencies]
rand = "0.8"
actix-web = "4"
actix-cors = "0.7"
dotenv = "0.15"
rusqlite = { version = "0.31", features = ["bundled"] }
serde = { version = "1", features = ["derive"] }
uuid = { version = "1", features = ["v4"] }
