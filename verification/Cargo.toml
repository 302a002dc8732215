[package]
name = "evolve_unpack"
version = "0.1.0"
edition = "2021"
publish = false

[dependencies]
zip = "*"
arboard = "*"
enigo = "*"
thirtyfour = "*"
tokio = { version = "*", features = ["full"] }
