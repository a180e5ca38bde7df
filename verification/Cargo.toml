[package]
name = "music_notation"
version = "0.1.0"
edition = "2021"
publish = false

[dependencies]
num-bigint = "0.4"
num-integer = "0.1"
num-rational = "0.4"
winapi = { version = "0.3", features = ["basetsd", "minwindef", "windef", "windowsx", "commctrl", "errhandlingapi", "libloaderapi", "wingdi", "winuser"] }
