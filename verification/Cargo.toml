[package]
name = "persister"
version = "0.1.0"
edition = "2021"
publish = false

[dependencies]
itertools = "*"
chrono = { version = "*", default-features = false, features = ["clock"] }
sqlx = { version = "*", default-features = false, features = ["sqlite", "runtime-tokio"] }
tokio = { version = "*", default-features = false, features = ["rt", "macros", "time"] }
futures = "*"
