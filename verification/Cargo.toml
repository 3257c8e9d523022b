[package]
name = "minesweeper"
version = "0.1.0"
edition = "2021"
publish = false

[dependencies]
getrandom = "0.2"
leptos = { version = "0.6", features = ["csr"] }
