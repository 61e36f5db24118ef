[package]
name = "ivyhost"
version = "0.1.0"
edition = "2021"
publish = false

[dependencies]
actix-files = "*"
actix-web = "4"
base64 = "*"
config = { version = "*", default-features = false, features = ["toml"] }
deadpool-postgres = "*"
git2 = { version = "*", default-features = false }
lazy_static = "*"
serde = { version = "*", features = ["derive"] }
sha2 = "*"
tera = { version = "*", default-features = false }
tokio-postgres = "*"
