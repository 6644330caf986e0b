[package]
name = "ncbitaxonomy"
version = "1.0.0"
edition = "2021"
publish = false

[dependencies]
clap = "*"
diesel = { version = "2", features = ["sqlite"] }
libsqlite3-sys = { version = "*", features = ["bundled"] }
dotenv = "*"
flate2 = "*"
seq_io = "*"
bio = "*"
