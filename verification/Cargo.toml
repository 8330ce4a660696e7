[package]
name = "rustychickpeas_ldbc"
version = "0.1.0"
edition = "2021"
publish = false

[dependencies]
csv = "1"
flate2 = "1"
hashbrown = "0.15"
