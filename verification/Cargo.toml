[package]
name = "midi_osc_bridge"
version = "0.1.0"
edition = "2021"
publish = false

[dependencies]
rosc = "=0.1.6"
jack = "0.8"
clap = "=2.34.0"
log = "=0.4.34"
simple_logger = "=1.16.0"
