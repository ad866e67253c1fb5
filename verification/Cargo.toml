[package]
name = "music_analyzer_generator"
version = "0.1.0"
edition = "2021"
publish = false

[dependencies]
enum-iterator = "2"
midi-msg = "*"
rand = "0.8"
