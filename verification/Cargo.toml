[package]
name = "switchboard"
version = "0.1.0"
edition = "2021"
publish = false

[dependencies]
uuid = { version = "1", features = ["v4", "serde"] }
serde = { version = "1", features = ["derive"] }
serde_json = "1"
directories = "*"
sysinfo = "*"
ureq = "3"
libc = "0.2"
gtk4 = { version = "*", features = ["v4_10"] }
libadwaita = { version = "*", features = ["v1_4"] }
