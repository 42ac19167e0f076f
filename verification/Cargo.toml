[package]
name = "jj_config"
version = "0.1.0"
edition = "2021"
publish = false

[dependencies]
config = { version = "=0.13.4", default-features = false, features = ["toml"] }
dirs = "=5.0.1"
itertools = "=0.13.0"
regex = "=1.13.1"
serde = { version = "=1.0.229", features = ["derive"] }
thiserror = "=2.0.21"
toml_edit = "=0.22.27"
