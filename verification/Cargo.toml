[package]
name = "fd_core"
version = "0.1.0"
edition = "2021"
publish = false

[dependencies]
anyhow = "1"
clap = { version = "4", default-features = false, features = ["std", "derive", "help", "usage", "error-context"] }
crossbeam-channel = "0.5"
eframe = { version = "0.31", default-features = false, features = ["default_fonts", "glow", "x11"] }
image = { version = "0.25", default-features = false, features = ["png"] }
jwalk = "0.8"
rayon = "1"
rfd = { version = "0.15", default-features = false, features = ["xdg-portal", "tokio"] }
rusqlite = { version = "0.32", features = ["bundled"] }
serde = { version = "1", features = ["derive"] }
serde_json = "1"
thiserror = "2"
turbojpeg = "1.3"
xxhash-rust = { version = "0.8", features = ["xxh3"] }
zune-core = "0.4"
zune-jpeg = "0.4"
