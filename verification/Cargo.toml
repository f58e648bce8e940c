[package]
name = "csv_reader"
version = "0.1.0"
edition = "2021"
publish = false

[dependencies]
chardetng = "=1.0.0"
encoding_rs = "=0.8.44"
memchr = "=2.8.3"
memmap2 = "=0.9.12"
rayon = "=1.12.0"
eframe = { version = "=0.37.0", default-features = false, features = ["default_fonts", "glow", "x11", "persistence"] }
rfd = { version = "=0.17.2", default-features = false, features = ["xdg-portal"] }
