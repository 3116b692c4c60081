[package]
name = "among_us_server"
version = "0.1.0"
edition = "2021"
publish = false

[dependencies]
actix = "=0.13.5"
actix-web = { version = "=4.18.1", default-features = false, features = ["macros", "cookies", "rustls", "ws"] }
actix-web-actors = "=4.3.1"
actix-cors = "=0.6.5"
rustls = "=0.20.9"
rustls-pemfile = "=1.0.4"
serde = { version = "=1.0.229", features = ["derive"] }
serde_json = "=1.0.154"
rand = "=0.8.8"
rand_pcg = "=0.3.1"
uuid = { version = "=1.29.0", features = ["serde"] }
