[package]
name = "leptos_2048"
version = "0.1.0"
edition = "2021"
publish = false

[dependencies]
rand = "0.8"
itertools = "0.12"
rayon = "1"
serde = { version = "1", features = ["derive"] }
serde_json = "1"
clap = { version = "4", features = ["derive"] }
leptos = { version = "0.6", features = ["csr"] }
leptos-use = "0.13"
leptos_hotkeys = "0.2"
