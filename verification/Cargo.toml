[package]
name = "conway"
version = "0.1.0"
edition = "2021"
publish = false

[dependencies]
cortex-m = "=0.7.10"
cortex-m-rt = "=0.7.7"
defmt = "=0.3.101"
defmt-rtt = "=0.4.2"
embedded-graphics = "=0.7.1"
embedded-hal = "=0.2.7"
fugit = "=0.3.9"
panic-probe = { version = "=0.3.2", features = ["print-defmt"] }
rp-pico = "=0.7.0"
st7735-lcd = "=0.8.1"
