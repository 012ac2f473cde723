[package]
name = "spectrum_panel"
version = "0.1.0"
edition = "2021"
publish = false

[dependencies]
embedded-hal = "=1.0.0"
embedded-hal-bus = "=0.3.0"
embedded-graphics = "=0.8.2"
display-interface-spi = "=0.5.0"
ili9341 = "=0.6.0"
embassy-time = "=0.5.1"
panic-halt = "=1.0.0"
