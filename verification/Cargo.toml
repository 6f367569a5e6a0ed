[package]
name = "changelog"
version = "0.1.0"
edition = "2021"
publish = false

[dependencies]
diff = "*"
clap = { version = "*", features = ["derive"] }
colored = "*"
serde = { version = "*", features = ["derive"] }
serde_json = "*"
time = { version = "*", features = ["local-offset"] }
toml_edit = "*"
