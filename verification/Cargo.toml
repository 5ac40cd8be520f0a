[package]
name = "scavenger_hunt"
version = "0.1.0"
edition = "2021"
publish = false

[dependencies]
actix-cors = "=0.6.5"
actix-files = "=0.6.10"
actix-web = { version = "=4.18.1", default-features = false, features = ["macros"] }
argon2 = { version = "=0.5.3", features = ["std"] }
diesel = { version = "=2.3.14", features = ["sqlite", "r2d2"] }
futures-util = "=0.3.34"
image = { version = "=0.24.9", default-features = false, features = ["jpeg", "png"] }
libsqlite3-sys = { version = "=0.38.2", features = ["bundled"] }
log = "=0.4.34"
r2d2 = "=0.8.10"
serde = { version = "=1.0.229", features = ["derive"] }
serde_json = "=1.0.154"
sublime_fuzzy = "=0.7.0"
