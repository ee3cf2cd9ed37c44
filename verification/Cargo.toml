[package]
name = "atlas_editor"
version = "0.1.0"
edition = "2021"
publish = false

[dependencies]
uuid = { version = "1", features = ["v4"] }
crossbeam = "0.8"
image = { version = "0.25", default-features = false, features = ["png"] }
tracing = "0.1"
tracing-subscriber = "0.3"
walkdir = "2"
windows = { version = "0.61", features = ["UI", "Foundation", "Win32_Foundation", "Win32_Graphics_Direct2D_Common", "Win32_UI_WindowsAndMessaging", "Win32_UI_Input_KeyboardAndMouse"] }
windows-core = "0.61"
windows-numerics = "0.2"
