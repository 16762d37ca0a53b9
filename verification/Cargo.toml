[package]
name = "paste_it"
version = "0.1.0"
edition = "2021"
publish = false

[dependencies]
anyhow = "1"
chrono = "0.4"
gdk4 = "0.7"
gdk-pixbuf = "0.18"
gtk4 = "0.7"
hex = "0.4"
image = { version = "0.24", default-features = false, features = ["png"] }
rusqlite = { version = "0.30", features = ["bundled"] }
sha2 = "0.10"
