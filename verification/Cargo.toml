[package]
name = "aoe2_squire"
version = "0.1.0"
edition = "2021"
publish = false

[dependencies]
aoe2rec = "*"
binrw = "*"
serde = { version = "1", features = ["derive"] }
serde_json = "1"
csv = "1"
chrono = "0.4"
minijinja = "2"
ureq = { version = "2", features = ["json"] }
image = { version = "0.25", default-features = false, features = ["png"] }
imageproc = { version = "0.25", default-features = false }
ctrlc = "3"
open = "5"
