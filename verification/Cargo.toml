[package]
name = "horndb_sparql"
version = "0.1.0"
edition = "2021"
publish = false

[dependencies]
regex = "=1.13.1"
spargebra = { version = "=0.4.8", features = ["sparql-12"] }
oxiri = "=0.2.11"
oxrdf = { version = "=0.3.5", features = ["rdf-12"] }
oxttl = { version = "=0.2.5", features = ["rdf-12"] }
serde_json = "=1.0.154"
time = { version = "=0.3.55", features = ["formatting", "macros"] }
axum = "=0.8.9"
tokio = { version = "=1.54.1", features = ["sync", "rt", "time", "macros"] }
bytes = "=1.12.1"
http-body = "=1.1.0"
pin-project-lite = "=0.2.17"
parking_lot = "=0.12.5"

[dev-dependencies]
sparesults = { version = "=0.3.5", features = ["sparql-12"] }
