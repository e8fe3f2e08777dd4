[package]
name = "rbackup"
version = "0.1.0"
edition = "2021"
publish = false

[dependencies]
windows-sys = { version = "0.52", features = ["Win32_Foundation", "Win32_UI_WindowsAndMessaging", "Win32_Graphics_Dwm"] }
