[package]
name = "smallstr"
version = "0.1.0"
edition = "2021"
publish = false

[dependencies]
smallvec = { version = "*", features = ["const_generics"] }
serde = { version = "*", features = ["derive"] }
