[package]
name = "furet"
version = "0.1.0"
edition = "2021"
publish = false

[dependencies]
unicode-normalization = "=0.1.26"
nucleo-matcher = "=0.3.1"
toml = "=0.8.23"
dunce = "=1.0.5"
dirs = "=5.0.1"
rusqlite = { version = "=0.32.1", features = ["bundled"] }
clap = { version = "=4.6.7", features = ["derive"] }
clap_complete = "=4.6.11"
thiserror = "=1.0.69"
tracing = "=0.1.44"
tracing-appender = "=0.2.5"
tracing-subscriber = { version = "=0.3.23", features = ["env-filter"] }
ignore = "0.4"
