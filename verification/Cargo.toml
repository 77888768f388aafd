[package]
name = "relanotes"
version = "0.1.0"
edition = "2021"
publish = false

[dependencies]
diesel = { version = "*", features = ["sqlite"] }
libsqlite3-sys = { version = "*", features = ["bundled"] }
dotenv = "*"
regex = "*"
