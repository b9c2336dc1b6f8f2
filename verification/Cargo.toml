[package]
name = "stack_solitaire"
version = "0.1.0"
edition = "2021"
publish = false

[dependencies]
rand = { version = "0.8", features = ["small_rng"] }
enigo = "0.1"
screenshots = "0.8"
strum = "0.25"
strum_macros = "0.25"
