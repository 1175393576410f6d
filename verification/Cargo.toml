[package]
name = "electrocute"
version = "0.1.0"
edition = "2021"
publish = false

[dependencies]
bytemuck = { version = "1", features = ["derive"] }
prettytable-rs = { version = "0.10", default-features = false }
textplots = "0.8"
