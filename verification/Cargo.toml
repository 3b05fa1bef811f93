[package]
name = "pomodoro"
version = "0.1.0"
edition = "2021"
publish = false

[dependencies]
chrono = "*"
tui = "*"
notify-rust = "*"
rodio = "*"
