[package]
name = "colorthief"
version = "0.2.0"
edition = "2021"
publish = false

[dependencies]
csv = "1"
heck = "0.5"
libm = "0.2"
prettyplease = "0.2"
proc-macro2 = "1"
quote = "1"
rayon = "1"
serde = { version = "1", features = ["derive"] }
syn = { version = "2", features = ["full"] }
thiserror = "2"
