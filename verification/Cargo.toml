[package]
name = "unclog"
version = "0.1.0"
edition = "2021"
publish = false

[dependencies]
git2 = { version = "*", default-features = false }
handlebars = "*"
log = "0.4"
semver = "1"
serde_json = "1"
thiserror = "1"
toml = "*"
url = "2"
