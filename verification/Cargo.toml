[package]
name = "dipper"
version = "0.1.0"
edition = "2021"
publish = false

[dependencies]
bson = "=2.15.0"
chrono = "=0.4.45"
config = "=0.7.1"
gnuplot = "=0.0.46"
mongodb = { version = "=3.9.1", features = ["sync"] }
rand = "=0.4.6"
serde_json = "=1.0.154"
serenity = { version = "=0.12.5", default-features = false, features = ["client", "gateway", "model", "rustls_backend"] }
tokio = { version = "=1.54.1", features = ["macros", "rt-multi-thread"] }
