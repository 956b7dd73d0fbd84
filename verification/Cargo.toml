[package]
name = "omni_keymap"
version = "0.1.0"
edition = "2021"
publish = false

[dependencies]
anyhow = "1"
clap = { version = "4", features = ["derive"] }
serde = { version = "1", features = ["derive"] }
serde_json = "1"
xkbcommon = "*"
core-foundation = "*"
windows-sys = { version = "*", features = ["Win32_UI_Input_KeyboardAndMouse"] }
