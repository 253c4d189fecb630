[package]
name = "collisions"
version = "0.1.0"
edition = "2021"
publish = false

[dependencies]
itertools = "=0.15.0"
serde = { version = "=1.0.229", features = ["derive"] }
syn = { version = "2", features = ["full", "parsing", "printing", "extra-traits"] }
quote = "1"
proc-macro2 = "1"
cbindgen = { version = "*", default-features = false }
csbindgen = "*"
assert_float_eq = "*"
