[package]
name = "progression_website"
version = "0.1.0"
edition = "2021"
publish = false

[dependencies]
rand = "0.8"
html2md = "0.2"
pulldown-cmark = { version = "0.9", default-features = false }
serde = { version = "1", features = ["derive"] }
serde_yaml = "0.8"
csv = "1"
lazy_static = "1"
display-as = "*"
dot = "0.1"
clapme = "*"
tokio = { version = "1", features = ["macros", "rt-multi-thread"] }
warp = "0.3"
bytes = "1"
