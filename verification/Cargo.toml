[package]
name = "termepub"
version = "2.5.0"
edition = "2021"
publish = false

[dependencies]
atty = "0.2"
clap = { version = "4", features = ["derive"] }
crossterm = "0.28"
quick-xml = "0.36"
ratatui = "0.29"
serde_json = "1"
sha1 = "0.10"
unicode-width = "0.2"
unicode-segmentation = "1"
zip = { version = "2", default-features = false, features = ["deflate"] }
