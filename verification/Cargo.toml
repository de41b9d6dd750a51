[package]
name = "dynec"
version = "0.2.1"
edition = "2021"
publish = false

[dependencies]
rand = "0.8"
parking_lot = { version = "0.12", features = ["arc_lock"] }
rayon = "1"
bitvec = "1"
itertools = "0.12"
xias = "*"
log = "0.4"
static_assertions = "1"
auto_enums = "0.8"
matches2 = "*"
proc-macro2 = "1"
quote = "1"
syn = { version = "2", features = ["full", "extra-traits"] }
