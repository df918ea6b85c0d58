[package]
name = "live_files"
version = "0.1.0"
edition = "2021"
publish = false

[dependencies]
globset = "*"
time = { version = "*", features = ["formatting"] }
mime_guess = "*"
anyhow = "*"
axum = "*"
clap = { version = "*", features = ["derive", "env"] }
futures-util = "*"
notify = "*"
notify-debouncer-full = "*"
reqwest = { version = "*", default-features = false, features = ["json"] }
serde = { version = "*", features = ["derive"] }
serde_json = "*"
thiserror = "*"
tokio = { version = "*", features = ["full"] }
toml = "*"
