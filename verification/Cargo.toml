[package]
name = "psim"
version = "0.1.0"
edition = "2021"
publish = false

[dependencies]
rand = "=0.8.8"
multi_mut = "=0.1.3"
physical_constants = "=0.5.0"
ggez = { version = "=0.9.3", default-features = false }
sdl2 = "0.30"
