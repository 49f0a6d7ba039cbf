[package]
name = "lexi"
version = "0.1.0"
edition = "2021"
publish = false

[dependencies]
anyhow = "1"
chrono = { version = "=0.4.45", default-features = false, features = ["clock", "std"] }
eframe = { version = "=0.37.0", default-features = false, features = ["default_fonts", "glow", "x11"] }
egui_extras = { version = "=0.37.0", default-features = false }
grep = "=0.4.1"
ignore = "=0.4.34"
image = { version = "=0.25.10", default-features = false, features = ["png"] }
log = "0.4"
office_oxide = { version = "=0.1.16", default-features = false }
open = "=5.4.5"
pdf_oxide = { version = "=0.3.78", default-features = false }
quoted_printable = "=0.5.2"
regex = "=1.13.1"
rfd = { version = "=0.17.2", default-features = false, features = ["xdg-portal"] }
simplelog = "=0.12.2"
