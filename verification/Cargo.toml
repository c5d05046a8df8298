[package]
name = "freebsd_flatpak"
version = "0.1.0"
edition = "2021"
publish = false

[dependencies]
anyhow = "1"
libc = "0.2"
glib = "*"
