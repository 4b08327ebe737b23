[package]
name = "logicrs"
version = "0.1.0"
edition = "2021"
publish = false

[dependencies]
uuid = { version = "1", features = ["v4"] }
serde = { version = "1", features = ["derive"] }
serde_json = "1"
gtk4 = "0.5"
libadwaita = "0.2"
gio = "0.16"
glib = "0.16"
libloading = "0.7"
lazy_static = "1"
log = "0.4"
env_logger = "0.10"
