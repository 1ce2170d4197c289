[package]
name = "nametag"
version = "0.1.0"
edition = "2021"
publish = false

[dependencies]
nom = "7"
serde = { version = "1", features = ["derive"] }
serde_dhall = { version = "*", default-features = false }

[dev-dependencies]
quickcheck = "1"
