[package]
name = "thermal_printer"
version = "0.1.0"
edition = "2021"
publish = false

[dependencies]
discord-markdown = "=0.1.2"
regex = "=1.4.6"
twemoji-assets = { version = "=1.5.1", default-features = false, features = ["png"] }
escpos = { version = "=0.13.1", features = ["usb", "graphics"] }
serenity = "=0.12.5"
tokio = { version = "=1.54.1", features = ["macros", "rt-multi-thread"] }
reqwest = { version = "=0.13.5", features = ["blocking"] }
serde = { version = "=1.0.229", features = ["derive"] }
dotenvy_macro = "=0.15.7"
