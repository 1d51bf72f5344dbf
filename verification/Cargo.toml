[package]
name = "console_game_engine"
version = "0.1.0"
edition = "2021"
publish = false

[dependencies]
glium = "0.32"
keyboard_query = "*"
