[package]
name = "knoob"
version = "0.1.0"
edition = "2021"
publish = false

[dependencies]
actix-web = { version = "4", default-features = false, features = ["macros"] }
bitcode = "0.6"
include_dir = "0.7"
libc = "0.2"
lmdb = "0.8"
mime_guess = "2"
serde = { version = "1", features = ["derive"] }
tracing = "0.1"
