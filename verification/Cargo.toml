[package]
name = "glrx"
version = "0.1.0"
edition = "2021"
publish = false

[dependencies]
byteorder = "=1.5.0"
gnss-time = "=0.6.0"
log = "0.4"
num-complex = "0.4"
parking_lot = "0.12"
rayon = "1"
rustfft = "6"
