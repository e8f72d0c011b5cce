[package]
name = "calendar_tray"
version = "0.1.0"
edition = "2021"
publish = false

[dependencies]
chrono = "0.4"
icalendar = { version = "*", features = ["recurrence"] }
serde = { version = "1", features = ["derive"] }
toml = "*"
ureq = "3"
winreg = "*"
native-windows-gui = "1"
native-windows-derive = "1"
tray-icon = "*"
