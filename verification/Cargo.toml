[package]
name = "wordle_assist"
version = "1.0.1"
edition = "2021"

[dependencies]
serde_json = "1"
