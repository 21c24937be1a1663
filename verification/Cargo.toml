[package]
name = "mylauncher"
version = "0.1.0"
edition = "2021"
publish = false

[dependencies]
dirs = "5"
freedesktop-desktop-entry = "0.5"
gtk4 = "0.7"
shellexpand = "3"
