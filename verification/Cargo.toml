[package]
name = "microbit"
version = "0.1.0"
edition = "2021"
publish = false

[dependencies]
embedded-hal = "0.2"
nrf52833-hal = "0.12"
tiny-led-matrix = "1.0"
