[package]
name = "md_viewer_rs"
version = "0.1.0"
edition = "2021"
publish = false

[dependencies]
clap = { version = "=4.6.7", default-features = false, features = ["std", "derive", "help", "usage", "error-context"] }
eframe = { version = "=0.29.1", default-features = false, features = ["default_fonts", "glow", "x11"] }
egui_commonmark = { version = "=0.18.0", default-features = false, features = ["pulldown_cmark", "better_syntax_highlighting"] }
fontdb = "=0.22.0"
rfd = { version = "=0.15.4", default-features = false, features = ["xdg-portal", "tokio"] }
