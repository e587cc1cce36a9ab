[package]
name = "crolk"
version = "0.1.0"
edition = "2021"
publish = false

[dependencies]
chrono = "0.4"
dirs = "5"
glib = "0.18"
gtk = "0.18"
notify-rust = "4"
toml = "0.8"
tray-item = "0.10"
