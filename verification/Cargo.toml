[package]
name = "prttl"
version = "0.1.0"
edition = "2021"
publish = false

[dependencies]
oxrdf = { version = "0.3", features = ["rdf-12"] }
oxttl = { version = "0.2", features = ["rdf-12"] }
oxiri = "0.2"
regex = "1"
thiserror = "2"
clap = { version = "4", features = ["derive", "cargo"] }
diffy = "0.4"
tracing = "0.1"
tracing-subscriber = "0.3"
