[package]
name = "ft_core"
version = "0.1.0"
edition = "2021"
publish = false

[dependencies]
chrono = { version = "0.4", default-features = false, features = ["std", "clock"] }
urlencoding = "2"
serde = { version = "1", features = ["derive"] }
serde_json = "1"
toml = "0.8"
figment = { version = "0.10", features = ["toml"] }
thiserror = "2"
dirs = "5"
ignore = "0.4"
rayon = "1"
nucleo-matcher = "0.3"
tracing = "0.1"

[dev-dependencies]
assert_fs = "1"
