[package]
name = "beancount_prices"
version = "0.1.0"
edition = "2021"
publish = false

[dependencies]
anyhow = "*"
chrono = { version = "*", features = ["serde"] }
reqwest = { version = "*", default-features = false, features = ["json"] }
serde = { version = "*", features = ["derive"] }
serde_yaml = "*"
structopt = "*"
thiserror = "*"
tokio = { version = "*", features = ["macros", "rt"] }
